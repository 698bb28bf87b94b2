//! Stable arrangement of items by rank.

use vstd::prelude::*;

verus! {

/// Items with a strict weak order.
pub trait Ranked: Sized {
    spec fn ranks_before(self, other: Self) -> bool;

    proof fn lemma_ranks_asymmetric(a: Self, b: Self)
        ensures
            a.ranks_before(b) ==> !b.ranks_before(a),
    ;

    /// Where neither `a` goes before `b` nor `b` before `c`, `a` does not go
    /// before `c`.
    proof fn lemma_ranks_transitive(a: Self, b: Self, c: Self)
        ensures
            !a.ranks_before(b) && !b.ranks_before(c) ==> !a.ranks_before(c),
    ;

    fn is_before(&self, other: &Self) -> (r: bool)
        ensures
            r == self.ranks_before(*other),
    ;
}

/// A sequence with an item put behind all that do not rank after it.
pub open spec fn placed<T: Ranked>(items: Seq<T>, item: T) -> Seq<T>
    decreases items.len(),
{
    if items.len() == 0 || !item.ranks_before(items.last()) {
        items.push(item)
    } else {
        placed(items.drop_last(), item).push(items.last())
    }
}

/// A sequence in the order of rank, equals in the order in which they came.
pub open spec fn arranged<T: Ranked>(items: Seq<T>) -> Seq<T>
    decreases items.len(),
{
    if items.len() == 0 {
        items
    } else {
        placed(arranged(items.drop_last()), items.last())
    }
}

/// Whether no item ranks before one that stands earlier.
pub open spec fn in_order<T: Ranked>(items: Seq<T>) -> bool {
    forall|i: int, j: int|
        0 <= i < j < items.len() ==> !(#[trigger] items[j]).ranks_before(#[trigger] items[i])
}

proof fn lemma_placed<T: Ranked>(items: Seq<T>, item: T)
    requires
        in_order(items),
    ensures
        in_order(placed(items, item)),
        placed(items, item).to_multiset() == items.to_multiset().insert(item),
        placed(items, item).len() == items.len() + 1,
        forall|i: int|
            0 <= i < placed(items, item).len() ==> {
                let found = #[trigger] placed(items, item)[i];
                found == item || items.contains(found)
            },
    decreases items.len(),
{
    broadcast use vstd::seq_lib::group_to_multiset_ensures;

    let r = placed(items, item);
    if items.len() == 0 || !item.ranks_before(items.last()) {
        assert forall|i: int, j: int| 0 <= i < j < r.len() implies !(
        #[trigger] r[j]).ranks_before(#[trigger] r[i]) by {
            if j == items.len() {
                T::lemma_ranks_transitive(item, items.last(), items[i]);
                if i < items.len() - 1 {
                    assert(!items.last().ranks_before(items[i]));
                } else {
                    assert(items[i] == items.last());
                }
            }
        }
        assert forall|i: int| 0 <= i < r.len() implies #[trigger] r[i] == item || items.contains(
            r[i],
        ) by {
            if i < items.len() {
                assert(items[i] == r[i]);
            }
        }
    } else {
        let rest = items.drop_last();
        assert(in_order(rest));
        lemma_placed(rest, item);
        let front = placed(rest, item);
        assert forall|i: int, j: int| 0 <= i < j < r.len() implies !(
        #[trigger] r[j]).ranks_before(#[trigger] r[i]) by {
            if j == r.len() - 1 {
                let found = front[i];
                if found == item {
                    T::lemma_ranks_asymmetric(item, items.last());
                } else {
                    let k = choose|k: int| 0 <= k < rest.len() && rest[k] == found;
                    assert(rest.contains(found));
                    assert(items[k] == found);
                    assert(!items[items.len() - 1].ranks_before(items[k]));
                }
            } else {
                assert(!front[j].ranks_before(front[i]));
            }
        }
        assert(items =~= rest.push(items.last()));
        assert(r.to_multiset() =~= items.to_multiset().insert(item));
        assert forall|i: int| 0 <= i < r.len() implies #[trigger] r[i] == item || items.contains(
            r[i],
        ) by {
            if i == r.len() - 1 {
                assert(items[items.len() - 1] == r[i]);
            } else {
                let found = front[i];
                if found != item {
                    assert(rest.contains(found));
                    let k = choose|k: int| 0 <= k < rest.len() && rest[k] == found;
                    assert(items[k] == found);
                }
            }
        }
    }
}

/// Arranging keeps every item and puts them in order.
pub proof fn law_arranged<T: Ranked>(items: Seq<T>)
    ensures
        in_order(arranged(items)),
        arranged(items).to_multiset() == items.to_multiset(),
        arranged(items).len() == items.len(),
    decreases items.len(),
{
    broadcast use vstd::seq_lib::group_to_multiset_ensures;

    if items.len() > 0 {
        law_arranged(items.drop_last());
        lemma_placed(arranged(items.drop_last()), items.last());
        assert(items =~= items.drop_last().push(items.last()));
    }
}

/// Whether neither of two items ranks before the other.
pub open spec fn tied<T: Ranked>(a: T, b: T) -> bool {
    !a.ranks_before(b) && !b.ranks_before(a)
}

/// Arranging keeps the order of items that tie: those that tie with any one stand as they
/// came.
pub proof fn law_ties_stay_as_they_came<T: Ranked>(items: Seq<T>, x: T)
    ensures
        arranged(items).filter(|item: T| tied(item, x)) == items.filter(|item: T| tied(item, x)),
    decreases items.len(),
{
    reveal(Seq::filter);
    if items.len() > 0 {
        law_ties_stay_as_they_came(items.drop_last(), x);
        lemma_placed_ties(arranged(items.drop_last()), items.last(), x);
    }
}

proof fn lemma_placed_ties<T: Ranked>(items: Seq<T>, item: T, x: T)
    ensures
        ({
            let p = |item: T| tied(item, x);
            placed(items, item).filter(p) == if tied(item, x) {
                items.filter(p).push(item)
            } else {
                items.filter(p)
            }
        }),
    decreases items.len(),
{
    reveal(Seq::filter);
    if items.len() == 0 || !item.ranks_before(items.last()) {
        assert(items.push(item).drop_last() =~= items);
    } else {
        let fewer = items.drop_last();
        let last = items.last();
        lemma_placed_ties(fewer, item, x);
        assert(placed(items, item).drop_last() =~= placed(fewer, item));
        if tied(item, x) {
            T::lemma_ranks_transitive(item, x, last);
        }
    }
}

/// Whether of any two items one ranks before the other.
pub open spec fn untied<T: Ranked>(items: Seq<T>) -> bool {
    forall|i: int, j: int|
        0 <= i < j < items.len() ==> (#[trigger] items[i]).ranks_before(#[trigger] items[j])
            || items[j].ranks_before(items[i])
}

/// Whether every item ranks before all that stand later.
pub open spec fn strictly_in_order<T: Ranked>(items: Seq<T>) -> bool {
    forall|i: int, j: int|
        0 <= i < j < items.len() ==> (#[trigger] items[i]).ranks_before(#[trigger] items[j])
}

/// What is arranged was there before.
pub proof fn lemma_arranged_contains<T: Ranked>(items: Seq<T>, i: int)
    requires
        0 <= i < arranged(items).len(),
    ensures
        items.contains(arranged(items)[i]),
    decreases items.len(),
{
    if items.len() > 0 {
        let rest = items.drop_last();
        law_arranged(rest);
        lemma_placed(arranged(rest), items.last());
        let found = arranged(items)[i];
        if found == items.last() {
            assert(items[items.len() - 1] == found);
        } else {
            assert(arranged(rest).contains(found));
            let k = choose|k: int| 0 <= k < arranged(rest).len() && arranged(rest)[k] == found;
            lemma_arranged_contains(rest, k);
            let m = choose|m: int| 0 <= m < rest.len() && rest[m] == found;
            assert(items[m] == found);
        }
    }
}

/// Arranged items of which no two tie stand strictly in order.
pub proof fn law_arranged_strictly<T: Ranked>(items: Seq<T>)
    requires
        untied(items),
    ensures
        strictly_in_order(arranged(items)),
    decreases items.len(),
{
    if items.len() > 0 {
        let rest = items.drop_last();
        let last = items.last();
        assert(untied(rest)) by {
            assert forall|i: int, j: int| 0 <= i < j < rest.len() implies (
            #[trigger] rest[i]).ranks_before(#[trigger] rest[j]) || rest[j].ranks_before(
                rest[i],
            ) by {
                assert(items[i] == rest[i] && items[j] == rest[j]);
            }
        }
        law_arranged_strictly(rest);
        law_arranged(items);
        law_arranged(rest);
        assert forall|k: int| 0 <= k < arranged(rest).len() implies (
        #[trigger] arranged(rest)[k]).ranks_before(last) || last.ranks_before(
            arranged(rest)[k],
        ) by {
            lemma_arranged_contains(rest, k);
            let m = choose|m: int| 0 <= m < rest.len() && rest[m] == arranged(rest)[k];
            assert(items[m] == rest[m]);
            assert(items[items.len() - 1] == last);
        }
        lemma_placed_strictly(arranged(rest), last);
    }
}

proof fn lemma_placed_strictly<T: Ranked>(items: Seq<T>, item: T)
    requires
        in_order(items),
        strictly_in_order(items),
        forall|k: int|
            0 <= k < items.len() ==> (#[trigger] items[k]).ranks_before(item) || item.ranks_before(
                items[k],
            ),
    ensures
        strictly_in_order(placed(items, item)),
    decreases items.len(),
{
    let r = placed(items, item);
    if items.len() == 0 || !item.ranks_before(items.last()) {
        assert forall|i: int, j: int| 0 <= i < j < r.len() implies (
        #[trigger] r[i]).ranks_before(#[trigger] r[j]) by {
            if j == items.len() {
                let last = items[items.len() - 1];
                assert(last.ranks_before(item));
                if i < items.len() - 1 {
                    assert(items[i].ranks_before(last));
                    T::lemma_ranks_asymmetric(items[i], last);
                    T::lemma_ranks_asymmetric(last, item);
                    if item.ranks_before(items[i]) {
                        T::lemma_ranks_transitive(item, last, items[i]);
                    }
                }
            } else {
                assert(r[i] == items[i] && r[j] == items[j]);
            }
        }
    } else {
        let rest = items.drop_last();
        assert forall|i: int, j: int| 0 <= i < j < rest.len() implies (
        #[trigger] rest[i]).ranks_before(#[trigger] rest[j]) by {
            assert(rest[i] == items[i] && rest[j] == items[j]);
        }
        assert forall|i: int, j: int| 0 <= i < j < rest.len() implies !(
        #[trigger] rest[j]).ranks_before(#[trigger] rest[i]) by {
            assert(rest[i] == items[i] && rest[j] == items[j]);
        }
        assert forall|k: int| 0 <= k < rest.len() implies (#[trigger] rest[k]).ranks_before(item)
            || item.ranks_before(rest[k]) by {
            assert(rest[k] == items[k]);
        }
        lemma_placed_strictly(rest, item);
        lemma_placed(rest, item);
        let front = placed(rest, item);
        assert forall|i: int, j: int| 0 <= i < j < r.len() implies (
        #[trigger] r[i]).ranks_before(#[trigger] r[j]) by {
            if j == r.len() - 1 {
                assert(r[i] == front[i]);
                let found = front[i];
                if found != item {
                    assert(rest.contains(found));
                    let k = choose|k: int| 0 <= k < rest.len() && rest[k] == found;
                    assert(items[k].ranks_before(items[items.len() - 1]));
                }
            } else {
                assert(r[i] == front[i] && r[j] == front[j]);
            }
        }
    }
}

/// Puts an item behind all that do not rank after it.
pub fn place<T: Ranked>(items: &mut Vec<T>, item: T)
    ensures
        final(items)@ == placed(old(items)@, item),
{
    let mut at: usize = items.len();
    let ghost all = items@;
    let ghost mut tail: Seq<T> = Seq::empty();
    assert(all.take(all.len() as int) =~= all);
    assert(placed(all, item) =~= placed(all, item) + tail);
    while at > 0 && item.is_before(&items[at - 1])
        invariant
            at <= items@.len(),
            items@ == all,
            tail == all.skip(at as int),
            placed(all, item) == placed(all.take(at as int), item) + tail,
        decreases at,
    {
        proof {
            let here = all.take(at as int);
            assert(here.drop_last() =~= all.take(at - 1));
            assert(placed(here, item) + tail =~= placed(all.take(at - 1), item) + (seq![
                here.last(),
            ] + tail));
            assert(seq![here.last()] + tail =~= all.skip(at - 1));
            tail = all.skip(at - 1);
        }
        at = at - 1;
    }
    items.insert(at, item);
    proof {
        let here = all.take(at as int);
        assert(here.len() == 0 || !item.ranks_before(here.last()));
        assert(items@ =~= here.push(item) + tail);
    }
}

/// Arranges items by rank, equals in the order in which they came.
pub fn arrange<T: Ranked>(items: Vec<T>) -> (r: Vec<T>)
    ensures
        r@ == arranged(items@),
{
    let mut r: Vec<T> = Vec::new();
    let ghost all = items@;
    assert(all.take(0) =~= Seq::<T>::empty());
    for item in it: items
        invariant
            it.seq() == all,
            r@ == arranged(all.take(it.index())),
    {
        proof {
            assert(all.take(it.index() + 1).drop_last() =~= all.take(it.index()));
        }
        place(&mut r, item);
    }
    assert(all.take(all.len() as int) =~= all);
    r
}

} // verus!
