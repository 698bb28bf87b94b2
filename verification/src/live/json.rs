//! JSON strings, and objects of string fields.

use vstd::prelude::*;

verus! {

/// A hexadecimal digit.
pub open spec fn hex(d: int) -> char {
    if d < 10 {
        (48 + d) as char
    } else {
        (87 + d) as char
    }
}

/// What stands for a character inside a JSON string.
pub open spec fn escape(c: char) -> Seq<char> {
    let code = c as int;
    if c == '"' || c == '\\' {
        seq!['\\', c]
    } else if code == 8 {
        seq!['\\', 'b']
    } else if code == 9 {
        seq!['\\', 't']
    } else if code == 10 {
        seq!['\\', 'n']
    } else if code == 12 {
        seq!['\\', 'f']
    } else if code == 13 {
        seq!['\\', 'r']
    } else if code < 32 {
        seq!['\\', 'u', '0', '0', hex(code / 16), hex(code % 16)]
    } else {
        seq![c]
    }
}

pub open spec fn escaped(value: Seq<char>) -> Seq<char>
    decreases value.len(),
{
    if value.len() == 0 {
        Seq::empty()
    } else {
        escape(value[0]) + escaped(value.drop_first())
    }
}

/// A text as a JSON string: quotation marks around it, and quotation marks,
/// backslashes and control characters in it escaped.
pub open spec fn json_text(value: Seq<char>) -> Seq<char> {
    seq!['"'] + (escaped(value) + seq!['"'])
}

/// `serde_json::to_string` on a string: its JSON form, which leaves every other
/// character as it is. It fails on no string.
#[verifier::external_body]
pub(crate) fn json_string(value: &str) -> (r: String)
    ensures
        r@ == json_text(value@),
{
    serde_json::to_string(value).expect("strings have a JSON form")
}

/// One field of a JSON object: its name and a text.
pub open spec fn field(name: Seq<char>, value: Seq<char>) -> Seq<char> {
    "\""@ + name + "\":"@ + json_text(value)
}

/// Fields in a row, each after a comma.
pub open spec fn fields(names: Seq<Seq<char>>, values: Seq<Seq<char>>, count: int) -> Seq<char>
    decreases count,
{
    if count <= 0 {
        Seq::empty()
    } else {
        fields(names, values, count - 1) + (","@ + field(names[count - 1], values[count - 1]))
    }
}

/// Names as characters.
pub open spec fn spelled(names: Seq<&'static str>) -> Seq<Seq<char>> {
    names.map_values(|name: &'static str| name@)
}

pub(crate) fn push_field(out: &mut String, before: &str, name: &str, value: &str)
    ensures
        final(out)@ == old(out)@ + (before@ + field(name@, value@)),
{
    out.append(before);
    out.append("\"");
    out.append(name);
    out.append("\":");
    out.append(json_string(value).as_str());
    assert(out@ =~= old(out)@ + (before@ + field(name@, value@)));
}

/// Appends fields, each after a comma.
pub(crate) fn push_fields(out: &mut String, names: &Vec<&'static str>, values: &Vec<String>)
    requires
        names@.len() == values@.len(),
    ensures
        final(out)@ == old(out)@ + fields(
            spelled(names@),
            values@.map_values(|value: String| value@),
            names@.len() as int,
        ),
{
    let ghost all = values@.map_values(|value: String| value@);
    let mut i: usize = 0;
    assert(out@ =~= old(out)@ + fields(spelled(names@), all, 0));
    while i < names.len()
        invariant
            i <= names@.len(),
            names@.len() == values@.len(),
            all == values@.map_values(|value: String| value@),
            out@ == old(out)@ + fields(spelled(names@), all, i as int),
        decreases names@.len() - i,
    {
        let ghost before = out@;
        push_field(out, ",", names[i], values[i].as_str());
        assert(out@ =~= old(out)@ + fields(spelled(names@), all, i + 1));
        i = i + 1;
    }
}

/// A common beginning can be taken off.
pub proof fn lemma_cancel(head: Seq<char>, a: Seq<char>, b: Seq<char>)
    requires
        head + a == head + b,
    ensures
        a == b,
{
    assert(a =~= (head + a).skip(head.len() as int));
    assert(b =~= (head + b).skip(head.len() as int));
}

/// Where the escaped forms of two characters begin the same text, the
/// characters are the same.
proof fn lemma_escape_splits(a: char, b: char, x: Seq<char>, y: Seq<char>)
    requires
        escape(a) + x == escape(b) + y,
    ensures
        a == b,
        x == y,
{
    let s = escape(a) + x;
    let t = escape(b) + y;
    assert(s[0] == escape(a)[0]);
    assert(t[0] == escape(b)[0]);
    if escape(a).len() > 1 && escape(b).len() > 1 {
        assert(s[1] == escape(a)[1]);
        assert(t[1] == escape(b)[1]);
        if escape(a).len() == 6 && escape(b).len() == 6 {
            assert(s[4] == escape(a)[4]);
            assert(t[4] == escape(b)[4]);
            assert(s[5] == escape(a)[5]);
            assert(t[5] == escape(b)[5]);
            let c = a as int;
            let d = b as int;
            assert(hex(c / 16) as int == if c / 16 < 10 { 48 + c / 16 } else { 87 + c / 16 });
            assert(hex(d / 16) as int == if d / 16 < 10 { 48 + d / 16 } else { 87 + d / 16 });
            assert(hex(c % 16) as int == if c % 16 < 10 { 48 + c % 16 } else { 87 + c % 16 });
            assert(hex(d % 16) as int == if d % 16 < 10 { 48 + d % 16 } else { 87 + d % 16 });
        }
    }
    assert(a == b);
    lemma_cancel(escape(a), x, y);
}

/// A JSON string says where it ends, and what it stands for.
proof fn lemma_escaped_splits(a: Seq<char>, b: Seq<char>, x: Seq<char>, y: Seq<char>)
    requires
        escaped(a) + (seq!['"'] + x) == escaped(b) + (seq!['"'] + y),
    ensures
        a == b,
        x == y,
    decreases a.len(),
{
    let p = seq!['"'] + x;
    let q = seq!['"'] + y;
    let s = escaped(a) + p;
    let t = escaped(b) + q;
    if a.len() == 0 {
        assert(s =~= p);
        assert(s[0] == '"');
        if b.len() > 0 {
            assert(t[0] == escape(b[0])[0]);
        }
        assert(t =~= q);
        lemma_cancel(seq!['"'], x, y);
        assert(a =~= b);
    } else if b.len() == 0 {
        assert(t =~= q);
        assert(t[0] == '"');
        assert(s[0] == escape(a[0])[0]);
    } else {
        let u = escaped(a.drop_first()) + p;
        let v = escaped(b.drop_first()) + q;
        assert(s =~= escape(a[0]) + u);
        assert(t =~= escape(b[0]) + v);
        lemma_escape_splits(a[0], b[0], u, v);
        lemma_escaped_splits(a.drop_first(), b.drop_first(), x, y);
        assert(a =~= seq![a[0]] + a.drop_first());
        assert(b =~= seq![b[0]] + b.drop_first());
    }
}

/// A field says what it stands for, and where it ends.
pub proof fn lemma_field_splits(
    name: Seq<char>,
    a: Seq<char>,
    b: Seq<char>,
    x: Seq<char>,
    y: Seq<char>,
)
    requires
        field(name, a) + x == field(name, b) + y,
    ensures
        a == b,
        x == y,
{
    let head = "\""@ + name + "\":"@ + seq!['"'];
    let u = escaped(a) + (seq!['"'] + x);
    let v = escaped(b) + (seq!['"'] + y);
    assert(field(name, a) + x =~= head + u);
    assert(field(name, b) + y =~= head + v);
    lemma_cancel(head, u, v);
    lemma_escaped_splits(a, b, x, y);
}

/// Fields in a row say what they stand for, and where they end.
pub proof fn lemma_fields_split(
    names: Seq<Seq<char>>,
    a: Seq<Seq<char>>,
    b: Seq<Seq<char>>,
    count: int,
    x: Seq<char>,
    y: Seq<char>,
)
    requires
        fields(names, a, count) + x == fields(names, b, count) + y,
    ensures
        forall|i: int| 0 <= i < count ==> #[trigger] a[i] == b[i],
        x == y,
    decreases count,
{
    if count <= 0 {
        assert(fields(names, a, count) + x =~= x);
        assert(fields(names, b, count) + y =~= y);
    } else {
        let k = count - 1;
        let u = ","@ + (field(names[k], a[k]) + x);
        let v = ","@ + (field(names[k], b[k]) + y);
        assert(fields(names, a, count) + x =~= fields(names, a, k) + u);
        assert(fields(names, b, count) + y =~= fields(names, b, k) + v);
        lemma_fields_split(names, a, b, k, u, v);
        lemma_cancel(","@, field(names[k], a[k]) + x, field(names[k], b[k]) + y);
        lemma_field_splits(names[k], a[k], b[k], x, y);
    }
}

/// Whether a text is one line.
pub open spec fn flat(value: Seq<char>) -> bool {
    forall|i: int| 0 <= i < value.len() ==> #[trigger] value[i] != '\n'
}

pub proof fn lemma_flat_adds(a: Seq<char>, b: Seq<char>)
    requires
        flat(a),
        flat(b),
    ensures
        flat(a + b),
{
    assert forall|i: int| 0 <= i < (a + b).len() implies #[trigger] (a + b)[i] != '\n' by {
        if i < a.len() {
            assert((a + b)[i] == a[i]);
        } else {
            assert((a + b)[i] == b[i - a.len()]);
        }
    }
}

proof fn lemma_escape_flat(c: char)
    ensures
        flat(escape(c)),
{
    let code = c as int;
    if code < 32 {
        assert(hex(code / 16) as int == if code / 16 < 10 { 48 + code / 16 } else { 87 + code / 16 });
        assert(hex(code % 16) as int == if code % 16 < 10 { 48 + code % 16 } else { 87 + code % 16 });
    }
}

proof fn lemma_escaped_flat(value: Seq<char>)
    ensures
        flat(escaped(value)),
    decreases value.len(),
{
    if value.len() > 0 {
        lemma_escape_flat(value[0]);
        lemma_escaped_flat(value.drop_first());
        lemma_flat_adds(escape(value[0]), escaped(value.drop_first()));
    }
}

pub proof fn lemma_field_flat(name: Seq<char>, value: Seq<char>)
    requires
        flat(name),
    ensures
        flat(field(name, value)),
{
    reveal_strlit("\"");
    reveal_strlit("\":");
    lemma_escaped_flat(value);
    lemma_flat_adds(escaped(value), seq!['"']);
    lemma_flat_adds(seq!['"'], escaped(value) + seq!['"']);
    lemma_flat_adds("\""@, name);
    lemma_flat_adds("\""@ + name, "\":"@);
    lemma_flat_adds("\""@ + name + "\":"@, json_text(value));
}

pub proof fn lemma_fields_flat(names: Seq<Seq<char>>, values: Seq<Seq<char>>, count: int)
    requires
        forall|i: int| 0 <= i < count ==> flat(#[trigger] names[i]),
    ensures
        flat(fields(names, values, count)),
    decreases count,
{
    if count > 0 {
        let k = count - 1;
        reveal_strlit(",");
        lemma_fields_flat(names, values, k);
        lemma_field_flat(names[k], values[k]);
        lemma_flat_adds(","@, field(names[k], values[k]));
        lemma_flat_adds(fields(names, values, k), ","@ + field(names[k], values[k]));
    }
}

} // verus!
