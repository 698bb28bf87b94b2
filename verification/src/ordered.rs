//! Sets and maps keyed by text, kept in the order of their keys.

use crate::text;
use crate::text::Comparison;
use vstd::prelude::*;

verus! {

/// Whether keys stand in strictly increasing order.
pub open spec fn increasing(keys: Seq<String>) -> bool {
    forall|i: int, j: int|
        0 <= i < j < keys.len() ==> text::before(#[trigger] keys[i]@, #[trigger] keys[j]@)
}

/// Whether a key occurs.
pub open spec fn occurs(keys: Seq<String>, key: Seq<char>) -> bool {
    exists|i: int| 0 <= i < keys.len() && #[trigger] keys[i]@ == key
}

/// The place of a key.
pub open spec fn place(keys: Seq<String>, key: Seq<char>) -> int {
    choose|i: int| 0 <= i < keys.len() && #[trigger] keys[i]@ == key
}

pub proof fn lemma_place(keys: Seq<String>, i: int)
    requires
        increasing(keys),
        0 <= i < keys.len(),
    ensures
        occurs(keys, keys[i]@),
        place(keys, keys[i]@) == i,
{
    let p = place(keys, keys[i]@);
    assert(keys[p]@ == keys[i]@);
    text::lemma_before_irreflexive(keys[i]@);
}

/// Looks a key up: whether it occurs, and where it stands or would stand.
pub fn search(keys: &Vec<String>, key: &str) -> (r: (bool, usize))
    requires
        increasing(keys@),
    ensures
        r.0 == occurs(keys@, key@),
        r.1 <= keys@.len(),
        r.0 ==> r.1 < keys@.len() && keys@[r.1 as int]@ == key@ && r.1 == place(keys@, key@),
        forall|i: int| 0 <= i < r.1 ==> text::before(#[trigger] keys@[i]@, key@),
        forall|i: int|
            (if r.0 {
                r.1 + 1
            } else {
                r.1 as int
            }) <= i < keys@.len() ==> text::before(key@, #[trigger] keys@[i]@),
{
    let mut low: usize = 0;
    let mut high: usize = keys.len();
    while low < high
        invariant
            increasing(keys@),
            low <= high <= keys@.len(),
            forall|i: int| 0 <= i < low ==> text::before(#[trigger] keys@[i]@, key@),
            forall|i: int| high <= i < keys@.len() ==> text::before(key@, #[trigger] keys@[i]@),
        decreases high - low,
    {
        let middle: usize = low + (high - low) / 2;
        match text::compare(keys[middle].as_str(), key) {
            Comparison::Same => {
                proof {
                    lemma_place(keys@, middle as int);
                }
                return (true, middle);
            },
            Comparison::Before => {
                proof {
                    assert forall|i: int| 0 <= i < middle + 1 implies text::before(
                        #[trigger] keys@[i]@,
                        key@,
                    ) by {
                        if i < middle {
                            text::lemma_before_transitive(keys@[i]@, keys@[middle as int]@, key@);
                        }
                    }
                }
                low = middle + 1;
            },
            Comparison::After => {
                proof {
                    assert forall|i: int| middle <= i < keys@.len() implies text::before(
                        key@,
                        #[trigger] keys@[i]@,
                    ) by {
                        if middle < i {
                            text::lemma_before_transitive(key@, keys@[middle as int]@, keys@[i]@);
                        }
                    }
                }
                high = middle;
            },
        }
    }
    proof {
        if occurs(keys@, key@) {
            let i = place(keys@, key@);
            assert(keys@[i]@ == key@);
            text::lemma_before_irreflexive(key@);
        }
    }
    (false, low)
}

proof fn lemma_inserted(keys: Seq<String>, at: int, key: String)
    requires
        increasing(keys),
        0 <= at <= keys.len(),
        forall|i: int| 0 <= i < at ==> text::before(#[trigger] keys[i]@, key@),
        forall|i: int| at <= i < keys.len() ==> text::before(key@, #[trigger] keys[i]@),
    ensures
        increasing(keys.insert(at, key)),
        forall|k: Seq<char>| #[trigger]
            occurs(keys.insert(at, key), k) <==> occurs(keys, k) || k == key@,
{
    let after = keys.insert(at, key);
    assert forall|i: int, j: int| 0 <= i < j < after.len() implies text::before(
        #[trigger] after[i]@,
        #[trigger] after[j]@,
    ) by {
        let io = if i < at {
            i
        } else {
            i - 1
        };
        let jo = if j < at {
            j
        } else {
            j - 1
        };
        if i == at {
            assert(after[j] == keys[jo]);
        } else if j == at {
            assert(after[i] == keys[io]);
        } else {
            assert(after[i] == keys[io] && after[j] == keys[jo]);
        }
    }
    assert forall|k: Seq<char>| #[trigger] occurs(after, k) <==> occurs(keys, k) || k == key@ by {
        if occurs(after, k) {
            let i = place(after, k);
            if i < at {
                assert(keys[i]@ == k);
            } else if i > at {
                assert(keys[i - 1]@ == k);
            }
        }
        if occurs(keys, k) {
            let i = place(keys, k);
            if i < at {
                assert(after[i]@ == k);
            } else {
                assert(after[i + 1]@ == k);
            }
        }
        assert(after[at]@ == key@);
    }
}

/// Two increasing lists of the same texts are the same.
pub proof fn lemma_same_members(a: Seq<String>, b: Seq<String>)
    requires
        increasing(a),
        increasing(b),
        forall|key: Seq<char>| #[trigger] occurs(a, key) <==> occurs(b, key),
    ensures
        a.map_values(|key: String| key@) == b.map_values(|key: String| key@),
    decreases a.len(),
{
    let left = a.map_values(|key: String| key@);
    let right = b.map_values(|key: String| key@);
    if a.len() == 0 {
        if b.len() > 0 {
            lemma_place(b, 0);
            assert(occurs(a, b[0]@));
        }
        assert(left =~= right);
    } else {
        lemma_place(a, a.len() - 1);
        assert(occurs(b, a.last()@));
        let p = place(b, a.last()@);
        let last = b.len() - 1;
        assert(b[p]@ == a.last()@);
        lemma_place(b, last);
        assert(occurs(a, b[last]@));
        let q = place(a, b[last]@);
        assert(a[q]@ == b[last]@);
        if p < last {
            assert(text::before(b[p]@, b[last]@));
            if q < a.len() - 1 {
                assert(text::before(a[q]@, a[a.len() - 1]@));
                text::lemma_before_asymmetric(b[p]@, b[last]@);
            } else {
                text::lemma_before_irreflexive(a.last()@);
            }
        }
        assert(p == last);
        let fewer = a.drop_last();
        let rest = b.drop_last();
        assert(increasing(fewer)) by {
            assert forall|i: int, j: int| 0 <= i < j < fewer.len() implies text::before(
                #[trigger] fewer[i]@,
                #[trigger] fewer[j]@,
            ) by {
                assert(fewer[i] == a[i] && fewer[j] == a[j]);
            }
        }
        assert(increasing(rest)) by {
            assert forall|i: int, j: int| 0 <= i < j < rest.len() implies text::before(
                #[trigger] rest[i]@,
                #[trigger] rest[j]@,
            ) by {
                assert(rest[i] == b[i] && rest[j] == b[j]);
            }
        }
        assert forall|key: Seq<char>| #[trigger] occurs(fewer, key) <==> occurs(rest, key) by {
            lemma_dropped(a, key);
            lemma_dropped(b, key);
        }
        lemma_same_members(fewer, rest);
        assert(left =~= fewer.map_values(|key: String| key@).push(a.last()@));
        assert(right =~= rest.map_values(|key: String| key@).push(b.last()@));
    }
}

/// What an increasing list holds without its last text.
proof fn lemma_dropped(keys: Seq<String>, key: Seq<char>)
    requires
        increasing(keys),
        keys.len() > 0,
    ensures
        occurs(keys.drop_last(), key) <==> occurs(keys, key) && key != keys.last()@,
{
    let fewer = keys.drop_last();
    if occurs(fewer, key) {
        let i = place(fewer, key);
        assert(keys[i]@ == key);
        text::lemma_before_irreflexive(key);
        assert(text::before(keys[i]@, keys[keys.len() - 1]@));
    }
    if occurs(keys, key) && key != keys.last()@ {
        let i = place(keys, key);
        assert(fewer[i]@ == key);
    }
}

/// A set of texts in increasing order.
#[derive(Clone, Debug, PartialEq, Eq)]
pub struct TextSet {
    keys: Vec<String>,
}

impl TextSet {
    /// The members in increasing order.
    pub closed spec fn keys(self) -> Seq<String> {
        self.keys@
    }

    pub closed spec fn well_formed(self) -> bool {
        increasing(self.keys@)
    }

    pub open spec fn has(self, key: Seq<char>) -> bool {
        occurs(self.keys(), key)
    }

    /// The set of the members.
    pub open spec fn members(self) -> Set<Seq<char>> {
        Set::new(|key: Seq<char>| self.has(key))
    }

    /// What `well_formed` gives.
    pub proof fn lemma_increasing(self)
        requires
            self.well_formed(),
        ensures
            increasing(self.keys()),
    {
    }

    pub fn new() -> (r: Self)
        ensures
            r.well_formed(),
            r.keys() == Seq::<String>::empty(),
    {
        TextSet { keys: Vec::new() }
    }

    pub fn contains(&self, key: &str) -> (r: bool)
        requires
            self.well_formed(),
        ensures
            r == self.has(key@),
    {
        search(&self.keys, key).0
    }

    /// Adds a text; tells whether it was new.
    pub fn insert(&mut self, key: String) -> (r: bool)
        requires
            old(self).well_formed(),
        ensures
            final(self).well_formed(),
            r == !old(self).has(key@),
            !r ==> final(self).keys() == old(self).keys(),
            r ==> exists|at: int|
                0 <= at <= old(self).keys().len() && final(self).keys() == old(self).keys().insert(
                    at,
                    key,
                ),
            forall|k: Seq<char>| #[trigger]
                final(self).has(k) <==> old(self).has(k) || k == key@,
    {
        let (found, at) = search(&self.keys, key.as_str());
        if found {
            return false;
        }
        proof {
            lemma_inserted(self.keys@, at as int, key);
        }
        self.keys.insert(at, key);
        assert(self.keys() == old(self).keys().insert(at as int, key));
        true
    }

    pub fn len(&self) -> (r: usize)
        ensures
            r == self.keys().len(),
    {
        self.keys.len()
    }

    /// The members, in increasing order.
    pub fn into_keys(self) -> (r: Vec<String>)
        ensures
            r@ == self.keys(),
    {
        self.keys
    }

    pub fn as_keys(&self) -> (r: &Vec<String>)
        ensures
            r@ == self.keys(),
    {
        &self.keys
    }
}

/// A map from texts, in increasing order of its keys.
#[derive(Clone, Debug, PartialEq, Eq)]
pub struct TextMap<V> {
    keys: Vec<String>,
    values: Vec<V>,
}

impl<V> TextMap<V> {
    pub closed spec fn keys(self) -> Seq<String> {
        self.keys@
    }

    pub closed spec fn values(self) -> Seq<V> {
        self.values@
    }

    pub closed spec fn well_formed(self) -> bool {
        &&& increasing(self.keys@)
        &&& self.keys@.len() == self.values@.len()
    }

    pub open spec fn has(self, key: Seq<char>) -> bool {
        occurs(self.keys(), key)
    }

    /// The value under a key.
    pub open spec fn at(self, key: Seq<char>) -> V {
        self.values()[place(self.keys(), key)]
    }

    pub proof fn lemma_increasing(self)
        requires
            self.well_formed(),
        ensures
            increasing(self.keys()),
            self.keys().len() == self.values().len(),
    {
    }

    pub fn new() -> (r: Self)
        ensures
            r.well_formed(),
            r.keys() == Seq::<String>::empty(),
            r.values() == Seq::<V>::empty(),
    {
        TextMap { keys: Vec::new(), values: Vec::new() }
    }

    pub fn contains(&self, key: &str) -> (r: bool)
        requires
            self.well_formed(),
        ensures
            r == self.has(key@),
    {
        search(&self.keys, key).0
    }

    pub fn get(&self, key: &str) -> (r: Option<&V>)
        requires
            self.well_formed(),
        ensures
            match r {
                Some(value) => self.has(key@) && *value == self.at(key@),
                None => !self.has(key@),
            },
    {
        let (found, at) = search(&self.keys, key);
        if found {
            Some(&self.values[at])
        } else {
            None
        }
    }

    /// Access to the value under a key.
    pub fn get_mut(&mut self, key: &str) -> (r: Option<&mut V>)
        requires
            old(self).well_formed(),
        ensures
            final(self).well_formed(),
            final(self).keys() == old(self).keys(),
            match r {
                Some(value) => {
                    &&& old(self).has(key@)
                    &&& *value == old(self).at(key@)
                    &&& final(self).values() == old(self).values().update(
                        place(old(self).keys(), key@),
                        *final(value),
                    )
                },
                None => !old(self).has(key@) && final(self).values() == old(self).values(),
            },
    {
        let (found, at) = search(&self.keys, key);
        if found {
            Some(&mut self.values[at])
        } else {
            None
        }
    }

    /// Sets the value under a key.
    pub fn set(&mut self, key: String, value: V)
        requires
            old(self).well_formed(),
        ensures
            final(self).well_formed(),
            forall|k: Seq<char>| #[trigger]
                final(self).has(k) <==> old(self).has(k) || k == key@,
            final(self).at(key@) == value,
            forall|k: Seq<char>|
                old(self).has(k) && k != key@ ==> #[trigger] final(self).at(k) == old(self).at(k),
            old(self).has(key@) ==> final(self).keys() == old(self).keys(),
    {
        let (found, at) = search(&self.keys, key.as_str());
        let ghost before_keys = self.keys@;
        let ghost before_values = self.values@;
        if found {
            self.values.set(at, value);
            proof {
                assert forall|k: Seq<char>|
                    occurs(before_keys, k) && k != key@ implies #[trigger] self.at(k)
                    == before_values[place(before_keys, k)] by {
                    let i = place(before_keys, k);
                    assert(before_keys[i]@ == k);
                }
            }
        } else {
            let ghost given = key@;
            proof {
                lemma_inserted(self.keys@, at as int, key);
            }
            self.keys.insert(at, key);
            self.values.insert(at, value);
            proof {
                lemma_place(self.keys@, at as int);
                assert(self.keys@[at as int]@ == given);
                assert forall|k: Seq<char>|
                    occurs(before_keys, k) && k != given implies #[trigger] self.at(k)
                    == before_values[place(before_keys, k)] by {
                    let i = place(before_keys, k);
                    assert(before_keys[i]@ == k);
                    if i < at {
                        lemma_place(self.keys@, i);
                    } else {
                        lemma_place(self.keys@, i + 1);
                    }
                }
            }
        }
    }

    pub fn len(&self) -> (r: usize)
        ensures
            r == self.keys().len(),
    {
        self.keys.len()
    }

    /// The key at a place.
    pub fn key(&self, i: usize) -> (r: &String)
        requires
            self.well_formed(),
            i < self.keys().len(),
        ensures
            *r == self.keys()[i as int],
    {
        &self.keys[i]
    }

    /// The value at a place.
    pub fn value(&self, i: usize) -> (r: &V)
        requires
            self.well_formed(),
            i < self.keys().len(),
        ensures
            *r == self.values()[i as int],
    {
        &self.values[i]
    }

    /// Removes a key; tells whether it was there.
    pub fn remove(&mut self, key: &str) -> (r: bool)
        requires
            old(self).well_formed(),
        ensures
            final(self).well_formed(),
            r == old(self).has(key@),
            forall|k: Seq<char>| #[trigger]
                final(self).has(k) <==> old(self).has(k) && k != key@,
            forall|k: Seq<char>|
                old(self).has(k) && k != key@ ==> #[trigger] final(self).at(k) == old(self).at(k),
    {
        let (found, at) = search(&self.keys, key);
        let ghost before_keys = self.keys@;
        let ghost before_values = self.values@;
        if !found {
            return false;
        }
        let _removed_key: String = self.keys.remove(at);
        let _removed_value: V = self.values.remove(at);
        proof {
            let after = self.keys@;
            let p = at as int;
            assert forall|i: int| 0 <= i < after.len() implies #[trigger] after[i] == before_keys[if i < p {
                i
            } else {
                i + 1
            }] by {}
            assert(increasing(after));
            text::lemma_before_irreflexive(key@);
            assert forall|k: Seq<char>| #[trigger]
                occurs(after, k) <==> occurs(before_keys, k) && k != key@ by {
                if occurs(after, k) {
                    let i = place(after, k);
                    let o = if i < p {
                        i
                    } else {
                        i + 1
                    };
                    assert(before_keys[o]@ == k);
                    if k == key@ {
                        lemma_place(before_keys, o);
                    }
                }
                if occurs(before_keys, k) && k != key@ {
                    let i = place(before_keys, k);
                    assert(before_keys[i]@ == k);
                    if i < p {
                        assert(after[i]@ == k);
                    } else {
                        assert(after[i - 1]@ == k);
                    }
                }
            }
            assert forall|k: Seq<char>|
                occurs(before_keys, k) && k != key@ implies #[trigger] self.at(k)
                == before_values[place(before_keys, k)] by {
                let i = place(before_keys, k);
                assert(before_keys[i]@ == k);
                if i < p {
                    lemma_place(after, i);
                } else {
                    lemma_place(after, i - 1);
                }
            }
        }
        true
    }
}

} // verus!
