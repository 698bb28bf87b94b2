//! Text: order, comparison, and decimal numerals.

use vstd::prelude::*;
use vstd::std_specs::iter::IteratorSpec;

verus! {

/// Lexicographic order by code point.
pub open spec fn before(a: Seq<char>, b: Seq<char>) -> bool
    decreases b.len(),
{
    if b.len() == 0 {
        false
    } else if a.len() == 0 {
        true
    } else if a[0] != b[0] {
        (a[0] as int) < (b[0] as int)
    } else {
        before(a.drop_first(), b.drop_first())
    }
}

/// Texts are ordered by the code points of the first characters in which they differ, and
/// a text comes before all that go on from it.
pub proof fn law_texts_differ_at_their_first_difference(a: Seq<char>, b: Seq<char>, at: int)
    requires
        0 <= at <= a.len(),
        at <= b.len(),
        forall|i: int| 0 <= i < at ==> a[i] == #[trigger] b[i],
    ensures
        at < a.len() && at < b.len() && a[at] != b[at] ==> (before(a, b) <==> (a[at] as int) < (
        b[at] as int)),
        at == a.len() && at < b.len() ==> before(a, b) && !before(b, a),
        at == a.len() && at == b.len() ==> !before(a, b),
    decreases at,
{
    if at > 0 {
        assert(a[0] == b[0]);
        assert forall|i: int| 0 <= i < at - 1 implies a.drop_first()[i] == #[trigger] b.drop_first()[i] by {
            assert(a[i + 1] == b[i + 1]);
        }
        law_texts_differ_at_their_first_difference(a.drop_first(), b.drop_first(), at - 1);
    }
}

pub proof fn lemma_before_irreflexive(a: Seq<char>)
    ensures
        !before(a, a),
    decreases a.len(),
{
    if a.len() > 0 {
        lemma_before_irreflexive(a.drop_first());
    }
}

pub proof fn lemma_before_transitive(a: Seq<char>, b: Seq<char>, c: Seq<char>)
    requires
        before(a, b),
        before(b, c),
    ensures
        before(a, c),
    decreases a.len(),
{
    if a.len() > 0 && a[0] == b[0] && b[0] == c[0] {
        lemma_before_transitive(a.drop_first(), b.drop_first(), c.drop_first());
    }
}

pub proof fn lemma_before_total(a: Seq<char>, b: Seq<char>)
    ensures
        before(a, b) || before(b, a) || a == b,
    decreases a.len(),
{
    if a.len() > 0 && b.len() > 0 {
        if a[0] == b[0] {
            lemma_before_total(a.drop_first(), b.drop_first());
            if a.drop_first() == b.drop_first() {
                assert(a =~= seq![a[0]] + a.drop_first());
                assert(b =~= seq![b[0]] + b.drop_first());
            }
        }
    } else if a.len() == 0 && b.len() == 0 {
        assert(a =~= b);
    }
}

pub proof fn lemma_before_asymmetric(a: Seq<char>, b: Seq<char>)
    requires
        before(a, b),
    ensures
        !before(b, a),
        a != b,
{
    lemma_before_irreflexive(a);
    if before(b, a) {
        lemma_before_transitive(a, b, a);
    }
}

pub proof fn lemma_not_before_transitive(a: Seq<char>, b: Seq<char>, c: Seq<char>)
    ensures
        !before(a, b) && !before(b, c) ==> !before(a, c),
{
    if before(a, c) && !before(a, b) {
        lemma_before_total(a, b);
        if a != b {
            lemma_before_transitive(b, a, c);
        }
    }
}

/// How two texts compare.
#[derive(Clone, Copy, Debug, PartialEq, Eq, Structural)]
pub enum Comparison {
    Before,
    Same,
    After,
}

/// Compares two texts by code point.
pub fn compare(a: &str, b: &str) -> (r: Comparison)
    ensures
        match r {
            Comparison::Before => before(a@, b@),
            Comparison::Same => a@ == b@,
            Comparison::After => before(b@, a@),
        },
{
    broadcast use vstd::string::next_postcondition;
    let mut left = a.chars();
    let mut right = b.chars();
    let ghost mut i: int = 0;
    assert(a@.skip(0) =~= a@);
    assert(b@.skip(0) =~= b@);
    loop
        invariant
            0 <= i <= a@.len(),
            i <= b@.len(),
            left.remaining() == a@.skip(i),
            right.remaining() == b@.skip(i),
            forall|j: int| 0 <= j < i ==> a@[j] == b@[j],
            before(a@, b@) == before(a@.skip(i), b@.skip(i)),
            before(b@, a@) == before(b@.skip(i), a@.skip(i)),
        decreases a@.len() - i,
    {
        let x: Option<char> = left.next();
        let y: Option<char> = right.next();
        match (x, y) {
            (None, None) => {
                assert(a@ =~= b@);
                return Comparison::Same;
            },
            (None, Some(_)) => {
                return Comparison::Before;
            },
            (Some(_), None) => {
                return Comparison::After;
            },
            (Some(c), Some(d)) => {
                if c != d {
                    if c < d {
                        return Comparison::Before;
                    } else {
                        return Comparison::After;
                    }
                }
                proof {
                    assert(a@.skip(i).drop_first() =~= a@.skip(i + 1));
                    assert(b@.skip(i).drop_first() =~= b@.skip(i + 1));
                    i = i + 1;
                }
            },
        }
    }
}

/// Whether a text comes before another.
pub fn is_before(a: &str, b: &str) -> (r: bool)
    ensures
        r == before(a@, b@),
{
    match compare(a, b) {
        Comparison::Before => true,
        Comparison::Same => {
            proof {
                lemma_before_irreflexive(a@);
            }
            false
        },
        Comparison::After => {
            proof {
                lemma_before_asymmetric(b@, a@);
            }
            false
        },
    }
}

/// Whether two texts are the same.
pub fn same(a: &str, b: &str) -> (r: bool)
    ensures
        r == (a@ == b@),
{
    match compare(a, b) {
        Comparison::Same => true,
        Comparison::Before => {
            proof {
                lemma_before_asymmetric(a@, b@);
            }
            false
        },
        Comparison::After => {
            proof {
                lemma_before_asymmetric(b@, a@);
            }
            false
        },
    }
}

/// Whether a character has the White_Space property of Unicode.
pub open spec fn whitespace(c: char) -> bool {
    let n = c as int;
    ||| 0x9 <= n <= 0xd
    ||| n == 0x20
    ||| n == 0x85
    ||| n == 0xa0
    ||| n == 0x1680
    ||| 0x2000 <= n <= 0x200a
    ||| n == 0x2028
    ||| n == 0x2029
    ||| n == 0x202f
    ||| n == 0x205f
    ||| n == 0x3000
}

pub fn is_whitespace(c: char) -> (r: bool)
    ensures
        r == whitespace(c),
{
    let n: u32 = c as u32;
    (0x9 <= n && n <= 0xd) || n == 0x20 || n == 0x85 || n == 0xa0 || n == 0x1680 || (0x2000 <= n
        && n <= 0x200a) || n == 0x2028 || n == 0x2029 || n == 0x202f || n == 0x205f || n == 0x3000
}

/// A text without the whitespace at its start.
pub open spec fn trimmed_start(a: Seq<char>) -> Seq<char>
    decreases a.len(),
{
    if a.len() > 0 && whitespace(a[0]) {
        trimmed_start(a.drop_first())
    } else {
        a
    }
}

/// A text without the whitespace at its end.
pub open spec fn trimmed_end(a: Seq<char>) -> Seq<char>
    decreases a.len(),
{
    if a.len() > 0 && whitespace(a.last()) {
        trimmed_end(a.drop_last())
    } else {
        a
    }
}

/// A text without the whitespace around it.
pub open spec fn trimmed(a: Seq<char>) -> Seq<char> {
    trimmed_end(trimmed_start(a))
}

/// A text without a character at its end, however often it stands there.
pub open spec fn without_end(a: Seq<char>, c: char) -> Seq<char>
    decreases a.len(),
{
    if a.len() > 0 && a.last() == c {
        without_end(a.drop_last(), c)
    } else {
        a
    }
}

/// The characters of a text.
pub fn characters(a: &str) -> (r: Vec<char>)
    ensures
        r@ == a@,
{
    broadcast use vstd::string::next_postcondition;
    let mut out: Vec<char> = Vec::new();
    let mut left = a.chars();
    assert(a@.skip(0) =~= a@);
    loop
        invariant
            out@.len() <= a@.len(),
            left.remaining() == a@.skip(out@.len() as int),
            out@ == a@.take(out@.len() as int),
        ensures
            out@ == a@,
        decreases a@.len() - out@.len(),
    {
        match left.next() {
            Some(c) => {
                let ghost before = out@;
                out.push(c);
                assert(a@.skip(before.len() as int).drop_first() =~= a@.skip(out@.len() as int));
                assert(out@ =~= a@.take(out@.len() as int));
            },
            None => {
                assert(out@ =~= a@);
                break;
            },
        }
    }
    out
}

/// The text of some characters in a row.
pub fn from_characters(characters: &Vec<char>, start: usize, end: usize) -> (r: String)
    requires
        start <= end <= characters@.len(),
    ensures
        r@ == characters@.subrange(start as int, end as int),
{
    let mut out: String = String::new();
    let mut i: usize = start;
    assert(out@ =~= characters@.subrange(start as int, start as int));
    while i < end
        invariant
            start <= i <= end <= characters@.len(),
            out@ == characters@.subrange(start as int, i as int),
        decreases end - i,
    {
        out.push(characters[i]);
        assert(out@ =~= characters@.subrange(start as int, i + 1));
        i = i + 1;
    }
    out
}

/// Where a text starts behind its leading whitespace.
fn start_of(characters: &Vec<char>, from: usize) -> (r: usize)
    requires
        from <= characters@.len(),
    ensures
        from <= r <= characters@.len(),
        trimmed_start(characters@.skip(from as int)) == characters@.skip(r as int),
        r < characters@.len() ==> !whitespace(characters@[r as int]),
{
    let mut start: usize = from;
    while start < characters.len() && is_whitespace(characters[start])
        invariant
            from <= start <= characters@.len(),
            trimmed_start(characters@.skip(from as int)) == trimmed_start(
                characters@.skip(start as int),
            ),
        decreases characters@.len() - start,
    {
        assert(characters@.skip(start as int).drop_first() =~= characters@.skip(start + 1));
        start = start + 1;
    }
    start
}

/// A text without the whitespace around it.
pub fn trim(a: &str) -> (r: String)
    ensures
        r@ == trimmed(a@),
{
    let all: Vec<char> = characters(a);
    let start: usize = start_of(&all, 0);
    assert(all@.skip(0) =~= all@);
    let ghost rest = all@.skip(start as int);
    let mut end: usize = all.len();
    assert(rest =~= all@.subrange(start as int, end as int));
    while end > start && is_whitespace(all[end - 1])
        invariant
            start <= end <= all@.len(),
            trimmed_end(rest) == trimmed_end(all@.subrange(start as int, end as int)),
        decreases end,
    {
        assert(all@.subrange(start as int, end as int).drop_last() =~= all@.subrange(
            start as int,
            end - 1,
        ));
        end = end - 1;
    }
    from_characters(&all, start, end)
}

/// Whether a text is nothing but whitespace.
pub fn is_blank(a: &str) -> (r: bool)
    ensures
        r == (trimmed(a@).len() == 0),
{
    let all: Vec<char> = characters(a);
    let start: usize = start_of(&all, 0);
    assert(all@.skip(0) =~= all@);
    proof {
        if start < all@.len() {
            lemma_trimmed_end_keeps_first(all@.skip(start as int));
        }
    }
    start == all.len()
}

proof fn lemma_trimmed_end_keeps_first(a: Seq<char>)
    requires
        a.len() > 0,
        !whitespace(a[0]),
    ensures
        trimmed_end(a).len() > 0,
    decreases a.len(),
{
    if whitespace(a.last()) {
        lemma_trimmed_end_keeps_first(a.drop_last());
    }
}

/// A text without the whitespace at its start.
pub fn trim_start(a: &str) -> (r: String)
    ensures
        r@ == trimmed_start(a@),
{
    let all: Vec<char> = characters(a);
    let start: usize = start_of(&all, 0);
    assert(all@.skip(0) =~= all@);
    let end: usize = all.len();
    assert(all@.skip(start as int) =~= all@.subrange(start as int, end as int));
    from_characters(&all, start, end)
}

/// A text without a character at its end.
pub fn trim_end_of(a: &str, c: char) -> (r: String)
    ensures
        r@ == without_end(a@, c),
{
    let all: Vec<char> = characters(a);
    let mut end: usize = all.len();
    assert(all@.subrange(0, end as int) =~= all@);
    while end > 0 && all[end - 1] == c
        invariant
            end <= all@.len(),
            without_end(a@, c) == without_end(all@.subrange(0, end as int), c),
        decreases end,
    {
        assert(all@.subrange(0, end as int).drop_last() =~= all@.subrange(0, end - 1));
        end = end - 1;
    }
    from_characters(&all, 0, end)
}

/// What follows a prefix, where a text starts with it.
pub fn strip_prefix(a: &str, prefix: &str) -> (r: Option<String>)
    ensures
        match r {
            Some(rest) => prefix@.is_prefix_of(a@) && rest@ == a@.skip(prefix@.len() as int),
            None => !prefix@.is_prefix_of(a@),
        },
{
    let all: Vec<char> = characters(a);
    let head: Vec<char> = characters(prefix);
    if head.len() > all.len() {
        return None;
    }
    let mut i: usize = 0;
    while i < head.len()
        invariant
            i <= head@.len() <= all@.len(),
            all@ == a@,
            head@ == prefix@,
            forall|j: int| 0 <= j < i ==> all@[j] == head@[j],
        decreases head@.len() - i,
    {
        if all[i] != head[i] {
            assert(a@[i as int] != prefix@[i as int]);
            return None;
        }
        i = i + 1;
    }
    assert(prefix@ =~= a@.subrange(0, prefix@.len() as int));
    let end: usize = all.len();
    assert(a@.skip(prefix@.len() as int) =~= all@.subrange(head@.len() as int, end as int));
    Some(from_characters(&all, head.len(), end))
}

/// `String::push`: appends the character at the end.
pub assume_specification[ String::push ](s: &mut String, c: char)
    ensures
        final(s)@ == old(s)@.push(c),
;

/// The numeral of one decimal digit.
pub open spec fn digit(d: int) -> char {
    (48 + d) as char
}

/// The decimal numeral of a natural number, without leading zeros.
pub open spec fn numeral(n: nat) -> Seq<char>
    decreases n,
{
    if n < 10 {
        seq![digit(n as int)]
    } else {
        numeral(n / 10).push(digit((n % 10) as int))
    }
}

/// The last `width` decimal digits of a natural number.
pub open spec fn padded(n: nat, width: nat) -> Seq<char>
    decreases width,
{
    if width == 0 {
        Seq::empty()
    } else {
        padded(n / 10, (width - 1) as nat).push(digit((n % 10) as int))
    }
}

fn digit_of(d: u8) -> (c: char)
    requires
        d < 10,
    ensures
        c == digit(d as int),
{
    (48u8 + d) as char
}

/// Appends one decimal digit.
pub fn push_digit(out: &mut String, d: u8)
    requires
        d < 10,
    ensures
        final(out)@ == old(out)@.push(digit(d as int)),
{
    out.push(digit_of(d));
}

/// Appends the decimal numeral of `n`.
pub fn push_numeral(out: &mut String, n: u128)
    ensures
        final(out)@ == old(out)@ + numeral(n as nat),
    decreases n,
{
    if n < 10 {
        out.push(digit_of(n as u8));
        assert(out@ =~= old(out)@ + numeral(n as nat));
    } else {
        push_numeral(out, n / 10);
        out.push(digit_of((n % 10) as u8));
        assert(out@ =~= old(out)@ + numeral(n as nat));
    }
}

/// Appends the last `width` decimal digits of `n`.
pub fn push_padded(out: &mut String, n: u128, width: u32)
    ensures
        final(out)@ == old(out)@ + padded(n as nat, width as nat),
    decreases width,
{
    if width > 0 {
        push_padded(out, n / 10, width - 1);
        out.push(digit_of((n % 10) as u8));
    }
    assert(out@ =~= old(out)@ + padded(n as nat, width as nat));
}

/// The number that decimal digits stand for. Where they stand for none, the first
/// place that fails says why: it is no digit, or takes the number out of range.
pub open spec fn digits_value(digits: Seq<char>) -> Result<usize, &'static str>
    decreases digits.len(),
{
    if digits.len() == 0 {
        Ok(0)
    } else {
        let last = digits.last() as int;
        match digits_value(digits.drop_last()) {
            Err(reason) => Err(reason),
            Ok(value) => if last < 48 || last > 57 {
                Err("invalid digit found in string")
            } else if 10 * value + (last - 48) > usize::MAX {
                Err("number too large to fit in target type")
            } else {
                Ok((10 * value + (last - 48)) as usize)
            },
        }
    }
}

/// The digits of a numeral that may start with a plus sign.
pub open spec fn unsigned_digits(value: Seq<char>) -> Seq<char> {
    if value.len() > 1 && value[0] == '+' {
        value.drop_first()
    } else {
        value
    }
}

/// The count that a numeral stands for, or why it stands for none.
pub open spec fn count(value: Seq<char>) -> Result<usize, &'static str> {
    if value.len() == 0 {
        Err("cannot parse integer from empty string")
    } else {
        digits_value(unsigned_digits(value))
    }
}

proof fn lemma_digits_fail(digits: Seq<char>, count: int)
    requires
        0 <= count <= digits.len(),
        digits_value(digits.take(count)) is Err,
    ensures
        digits_value(digits) == digits_value(digits.take(count)),
    decreases digits.len(),
{
    if count == digits.len() {
        assert(digits.take(count) =~= digits);
    } else {
        assert(digits.drop_last().take(count) =~= digits.take(count));
        lemma_digits_fail(digits.drop_last(), count);
    }
}

fn code_point(c: char) -> (r: u32)
    ensures
        r == c as int,
{
    c as u32
}

/// Reads a count: decimal digits, with or without a plus sign before them.
pub fn parse_count(value: &str) -> (r: Result<usize, &'static str>)
    ensures
        r == count(value@),
{
    if value.is_empty() {
        return Err("cannot parse integer from empty string");
    }
    let all: Vec<char> = characters(value);
    let start: usize = if all.len() > 1 && all[0] == '+' {
        1
    } else {
        0
    };
    let ghost digits = unsigned_digits(value@);
    assert(digits =~= all@.skip(start as int));
    let mut n: usize = 0;
    let mut i: usize = start;
    assert(digits.take(0) =~= Seq::<char>::empty());
    while i < all.len()
        invariant
            start <= i <= all@.len(),
            start <= 1,
            digits == all@.skip(start as int),
            digits == unsigned_digits(value@),
            value@.len() > 0,
            digits_value(digits.take(i - start)) == Ok::<usize, &'static str>(n),
        decreases all@.len() - i,
    {
        proof {
            assert(digits.take(i + 1 - start).drop_last() =~= digits.take(i - start));
            assert(digits.take(i + 1 - start).last() == all@[i as int]);
        }
        let code: u32 = code_point(all[i]);
        if code < 48 || code > 57 {
            proof {
                lemma_digits_fail(digits, i + 1 - start);
            }
            return Err("invalid digit found in string");
        }
        let next: u128 = 10 * (n as u128) + (code - 48) as u128;
        if next > usize::MAX as u128 {
            proof {
                lemma_digits_fail(digits, i + 1 - start);
            }
            return Err("number too large to fit in target type");
        }
        n = next as usize;
        i = i + 1;
    }
    assert(digits.take(digits.len() as int) =~= digits);
    Ok(n)
}

/// The decimal numeral of an integer, with a sign where it is negative.
pub open spec fn integer(n: int) -> Seq<char> {
    if n < 0 {
        "-"@ + numeral((-n) as nat)
    } else {
        numeral(n as nat)
    }
}

/// Appends the decimal numeral of a signed integer.
pub fn push_integer(out: &mut String, n: i64)
    ensures
        final(out)@ == old(out)@ + integer(n as int),
{
    if n < 0 {
        out.append("-");
        push_numeral(out, (-(n as i128)) as u128);
    } else {
        push_numeral(out, n as u128);
    }
    assert(out@ =~= old(out)@ + integer(n as int));
}

/// The decimal numeral of an unsigned integer.
pub fn numeral_text(n: u64) -> (r: String)
    ensures
        r@ == numeral(n as nat),
{
    let mut out: String = String::new();
    push_numeral(&mut out, n as u128);
    assert(out@ =~= numeral(n as nat));
    out
}

} // verus!
