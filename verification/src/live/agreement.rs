//! What it means that a ledger passed: it holds what its reference holds.

use crate::live::ctpd;
use crate::live::json;
use crate::live::parity;
use crate::live::parity::{
    CandidateDecision, CandidateLabel, ParitySummary, Part, ReferenceDecision, ReferenceLabel,
};
use crate::ordered;
use vstd::prelude::*;

verus! {

/// The last line of a text is where it is.
proof fn lemma_last_line(a: Seq<char>, l: Seq<char>, b: Seq<char>, m: Seq<char>)
    requires
        a + "\n"@ + l == b + "\n"@ + m,
        json::flat(l),
        json::flat(m),
    ensures
        a == b,
        l == m,
{
    reveal_strlit("\n");
    let s = a + "\n"@ + l;
    let t = b + "\n"@ + m;
    assert(s.len() == a.len() + 1 + l.len());
    assert(t.len() == b.len() + 1 + m.len());
    if a.len() > b.len() {
        assert(s[a.len() as int] == '\n');
        assert(t[a.len() as int] == m[a.len() - b.len() - 1]);
    }
    if b.len() > a.len() {
        assert(t[b.len() as int] == '\n');
        assert(s[b.len() as int] == l[b.len() - a.len() - 1]);
    }
    assert(a =~= s.take(a.len() as int));
    assert(b =~= t.take(b.len() as int));
    assert(l =~= s.skip(a.len() as int + 1));
    assert(m =~= t.skip(b.len() as int + 1));
}

/// Whether texts are lines: each one line, and none empty.
spec fn proper_lines(lines: Seq<Seq<char>>) -> bool {
    forall|i: int| 0 <= i < lines.len() ==> json::flat(#[trigger] lines[i]) && lines[i].len() > 0
}

/// Lines that are joined can be told apart.
proof fn lemma_joined_unique(a: Seq<Seq<char>>, b: Seq<Seq<char>>)
    requires
        proper_lines(a),
        proper_lines(b),
        ctpd::joined(a) == ctpd::joined(b),
    ensures
        a == b,
    decreases a.len(),
{
    reveal_strlit("\n");
    if a.len() == 0 {
        if b.len() > 0 {
            lemma_joined_shape(b);
        }
        assert(a =~= b);
    } else if b.len() == 0 {
        lemma_joined_shape(a);
    } else if a.len() == 1 {
        if b.len() > 1 {
            let rest = ctpd::joined(b.drop_last());
            assert(ctpd::joined(b)[rest.len() as int] == '\n');
            assert(a[0][rest.len() as int] != '\n');
        }
        assert(a =~= b);
    } else if b.len() == 1 {
        let rest = ctpd::joined(a.drop_last());
        assert(ctpd::joined(a)[rest.len() as int] == '\n');
        assert(b[0][rest.len() as int] != '\n');
    } else {
        let fewer = a.drop_last();
        let other = b.drop_last();
        assert(json::flat(a[a.len() - 1]));
        assert(json::flat(b[b.len() - 1]));
        lemma_last_line(ctpd::joined(fewer), a.last(), ctpd::joined(other), b.last());
        assert forall|i: int| 0 <= i < fewer.len() implies json::flat(#[trigger] fewer[i])
            && fewer[i].len() > 0 by {
            assert(fewer[i] == a[i]);
        }
        assert forall|i: int| 0 <= i < other.len() implies json::flat(#[trigger] other[i])
            && other[i].len() > 0 by {
            assert(other[i] == b[i]);
        }
        lemma_joined_unique(fewer, other);
        assert(a =~= fewer.push(a.last()));
        assert(b =~= other.push(b.last()));
    }
}

proof fn lemma_joined_shape(a: Seq<Seq<char>>)
    requires
        proper_lines(a),
        a.len() > 0,
    ensures
        ctpd::joined(a).len() > 0,
{
    assert(a[a.len() - 1].len() > 0);
    if a.len() > 1 {
        assert(a.last().len() > 0);
    }
}

/// The texts of parts that all have one.
pub(crate) proof fn lemma_gathered_all(values: Seq<Part>)
    requires
        parity::gathered(values) is Ok,
    ensures
        parity::gathered(values)->Ok_0.len() == values.len(),
        forall|i: int|
            0 <= i < values.len() ==> #[trigger] values[i] == Ok::<Seq<char>, Seq<char>>(
                parity::gathered(values)->Ok_0[i],
            ),
    decreases values.len(),
{
    if values.len() > 0 {
        let fewer = values.drop_last();
        lemma_gathered_all(fewer);
        assert forall|i: int| 0 <= i < values.len() implies #[trigger] values[i] == Ok::<
            Seq<char>,
            Seq<char>,
        >(parity::gathered(values)->Ok_0[i]) by {
            if i < fewer.len() {
                assert(fewer[i] == values[i]);
            }
        }
    }
}

/// Whether two ledgers have the same lines, each once.
spec fn same_lines(a: Seq<Part>, b: Seq<Part>) -> bool {
    &&& a.len() == b.len()
    &&& forall|i: int| 0 <= i < a.len() ==> (#[trigger] a[i]) is Ok && b.contains(a[i])
    &&& forall|j: int| 0 <= j < b.len() ==> (#[trigger] b[j]) is Ok && a.contains(b[j])
    &&& forall|i: int, j: int| 0 <= i < j < a.len() ==> a[i] != a[j]
    &&& forall|i: int, j: int| 0 <= i < j < b.len() ==> b[i] != b[j]
}

/// Whether the lines of a ledger are lines.
spec fn proper_parts(lines: Seq<Part>) -> bool {
    forall|i: int|
        0 <= i < lines.len() && (#[trigger] lines[i]) is Ok ==> json::flat(lines[i]->Ok_0)
            && lines[i]->Ok_0.len() > 0
}

/// Equal canonical texts come from the same lines.
proof fn lemma_same_lines(a: Seq<Part>, b: Seq<Part>, text: String, other: String)
    requires
        parity::is_lines(Ok(text), a),
        parity::is_lines(Ok(other), b),
        text@ == other@,
        proper_parts(a),
        proper_parts(b),
    ensures
        same_lines(a, b),
{
    lemma_gathered_all(a);
    lemma_gathered_all(b);
    let s = parity::gathered(a)->Ok_0;
    let t = parity::gathered(b)->Ok_0;
    let k = choose|keys: Seq<String>| #[trigger]
        parity::lists(keys, s) && text@ == ctpd::joined(ctpd::contents(keys)) + "\n"@;
    let l = choose|keys: Seq<String>| #[trigger]
        parity::lists(keys, t) && other@ == ctpd::joined(ctpd::contents(keys)) + "\n"@;
    lemma_listed_proper(a, k);
    lemma_listed_proper(b, l);
    let x = ctpd::joined(ctpd::contents(k));
    let y = ctpd::joined(ctpd::contents(l));
    reveal_strlit("\n");
    assert(x =~= (x + "\n"@).drop_last());
    assert(y =~= (y + "\n"@).drop_last());
    lemma_joined_unique(ctpd::contents(k), ctpd::contents(l));
    assert(ctpd::contents(k).len() == k.len() && ctpd::contents(l).len() == l.len());
    assert forall|line: Seq<char>| s.contains(line) <==> #[trigger] t.contains(line) by {
        assert(ordered::occurs(k, line) <==> s.contains(line));
        assert(ordered::occurs(l, line) <==> t.contains(line));
        if ordered::occurs(k, line) {
            let i = ordered::place(k, line);
            assert(ctpd::contents(k)[i] == line);
            assert(l[i]@ == ctpd::contents(l)[i]);
            assert(l[i]@ == line);
        }
        if ordered::occurs(l, line) {
            let i = ordered::place(l, line);
            assert(ctpd::contents(l)[i] == line);
            assert(k[i]@ == ctpd::contents(k)[i]);
            assert(k[i]@ == line);
        }
    }
    assert forall|i: int| 0 <= i < a.len() implies (#[trigger] a[i]) is Ok && b.contains(a[i]) by {
        assert(s.contains(s[i]));
        assert(t.contains(s[i]));
        let j = choose|j: int| 0 <= j < t.len() && t[j] == s[i];
        assert(b[j] == a[i]);
    }
    assert forall|j: int| 0 <= j < b.len() implies (#[trigger] b[j]) is Ok && a.contains(b[j]) by {
        assert(t.contains(t[j]));
        assert(s.contains(t[j]));
        let i = choose|i: int| 0 <= i < s.len() && s[i] == t[j];
        assert(a[i] == b[j]);
    }
    assert forall|i: int, j: int| 0 <= i < j < a.len() implies a[i] != a[j] by {
        assert(s[i] != s[j]);
    }
    assert forall|i: int, j: int| 0 <= i < j < b.len() implies b[i] != b[j] by {
        assert(t[i] != t[j]);
    }
}

/// Listed lines are lines.
proof fn lemma_listed_proper(a: Seq<Part>, keys: Seq<String>)
    requires
        parity::gathered(a) is Ok,
        parity::lists(keys, parity::gathered(a)->Ok_0),
        proper_parts(a),
    ensures
        proper_lines(ctpd::contents(keys)),
{
    lemma_gathered_all(a);
    let s = parity::gathered(a)->Ok_0;
    assert forall|i: int| 0 <= i < ctpd::contents(keys).len() implies json::flat(
        #[trigger] ctpd::contents(keys)[i],
    ) && ctpd::contents(keys)[i].len() > 0 by {
        let line = ctpd::contents(keys)[i];
        assert(keys[i]@ == line);
        assert(ordered::occurs(keys, line));
        assert(s.contains(line));
        let m = choose|m: int| 0 <= m < s.len() && s[m] == line;
        assert(a[m] is Ok);
    }
}

/// What tells a candidate from others.
pub struct Identity {
    pub symbol: Seq<char>,
    pub time: Seq<char>,
    pub side: Seq<char>,
    pub trade_type: Seq<char>,
    pub candidate_policy_id: Seq<char>,
}

impl Identity {
    pub open spec fn json(self) -> Seq<char> {
        parity::identity_json(
            self.symbol,
            self.time,
            self.side,
            self.trade_type,
            self.candidate_policy_id,
        )
    }
}

/// An identity says what it stands for, and where it ends.
proof fn lemma_identity_splits(a: Identity, b: Identity, x: Seq<char>, y: Seq<char>)
    requires
        a.json() + x == b.json() + y,
    ensures
        a == b,
        x == y,
{
    let names = parity::identity_names();
    let v = seq![a.time, a.side, a.trade_type, a.candidate_policy_id];
    let w = seq![b.time, b.side, b.trade_type, b.candidate_policy_id];
    let p = json::fields(names, v, 4) + ("}"@ + x);
    let q = json::fields(names, w, 4) + ("}"@ + y);
    let f = json::field("symbol"@, a.symbol) + p;
    let g = json::field("symbol"@, b.symbol) + q;
    assert(a.json() + x =~= "{"@ + f);
    assert(b.json() + y =~= "{"@ + g);
    json::lemma_cancel("{"@, f, g);
    json::lemma_field_splits("symbol"@, a.symbol, b.symbol, p, q);
    json::lemma_fields_split(names, v, w, 4, "}"@ + x, "}"@ + y);
    assert(v[0] == w[0] && v[1] == w[1] && v[2] == w[2] && v[3] == w[3]);
    json::lemma_cancel("}"@, x, y);
}

proof fn lemma_names_flat()
    ensures
        json::flat("symbol"@),
        forall|i: int| 0 <= i < 4 ==> json::flat(#[trigger] parity::identity_names()[i]),
        forall|i: int| 0 <= i < 17 ==> json::flat(#[trigger] parity::decision_names()[i]),
        forall|i: int| 0 <= i < 5 ==> json::flat(#[trigger] parity::label_names()[i]),
        json::flat("{"@),
        json::flat("}"@),
        json::flat("{\"candidate\":"@),
        "{"@.len() == 1,
        "{\"candidate\":"@.len() > 0,
{
    reveal_strlit("symbol");
    reveal_strlit("time");
    reveal_strlit("side");
    reveal_strlit("trade_type");
    reveal_strlit("candidate_policy_id");
    reveal_strlit("planned_exit_policy");
    reveal_strlit("prediction_key");
    reveal_strlit("candidate_pred");
    reveal_strlit("history_count");
    reveal_strlit("history_max_label_available_time");
    reveal_strlit("decision");
    reveal_strlit("reject_reason");
    reveal_strlit("active_count");
    reveal_strlit("used_weight");
    reveal_strlit("candidate_weight");
    reveal_strlit("same_symbol_count");
    reveal_strlit("incumbent_candidate");
    reveal_strlit("incumbent_candidate_policy_id");
    reveal_strlit("incumbent_pred");
    reveal_strlit("replacement_margin");
    reveal_strlit("capital_ok");
    reveal_strlit("symbol_ok");
    reveal_strlit("entry_price");
    reveal_strlit("label_available_time");
    reveal_strlit("exit_time");
    reveal_strlit("exit_price");
    reveal_strlit("trade_return");
    reveal_strlit("{");
    reveal_strlit("}");
    reveal_strlit("{\"candidate\":");
}

proof fn lemma_identity_flat(a: Identity)
    ensures
        json::flat(a.json()),
{
    lemma_names_flat();
    let names = parity::identity_names();
    let v = seq![a.time, a.side, a.trade_type, a.candidate_policy_id];
    json::lemma_fields_flat(names, v, 4);
    json::lemma_field_flat("symbol"@, a.symbol);
    let tail = json::fields(names, v, 4) + "}"@;
    json::lemma_flat_adds(json::fields(names, v, 4), "}"@);
    json::lemma_flat_adds(json::field("symbol"@, a.symbol), tail);
    json::lemma_flat_adds("{"@, json::field("symbol"@, a.symbol) + tail);
}

/// A line of an object with a candidate is one line.
proof fn lemma_object_flat(a: Identity, names: Seq<Seq<char>>, values: Seq<Seq<char>>, count: int)
    requires
        forall|i: int| 0 <= i < count ==> json::flat(#[trigger] names[i]),
    ensures
        ({
            let line = "{\"candidate\":"@ + (a.json() + (json::fields(names, values, count)
                + "}"@));
            json::flat(line) && line.len() > 0
        }),
{
    lemma_names_flat();
    lemma_identity_flat(a);
    json::lemma_fields_flat(names, values, count);
    let tail = json::fields(names, values, count) + "}"@;
    json::lemma_flat_adds(json::fields(names, values, count), "}"@);
    json::lemma_flat_adds(a.json(), tail);
    json::lemma_flat_adds("{\"candidate\":"@, a.json() + tail);
}

/// Equal objects with a candidate have the same candidate and the same values.
proof fn lemma_object_unique(
    a: Identity,
    b: Identity,
    names: Seq<Seq<char>>,
    v: Seq<Seq<char>>,
    w: Seq<Seq<char>>,
    count: int,
)
    requires
        "{\"candidate\":"@ + (a.json() + (json::fields(names, v, count) + "}"@))
            == "{\"candidate\":"@ + (b.json() + (json::fields(names, w, count) + "}"@)),
    ensures
        a == b,
        forall|i: int| 0 <= i < count ==> #[trigger] v[i] == w[i],
{
    let x = json::fields(names, v, count) + "}"@;
    let y = json::fields(names, w, count) + "}"@;
    json::lemma_cancel("{\"candidate\":"@, a.json() + x, b.json() + y);
    lemma_identity_splits(a, b, x, y);
    json::lemma_fields_split(names, v, w, count, "}"@, "}"@);
}

/// The identity of a reference decision.
pub open spec fn reference_identity(record: ReferenceDecision) -> Identity {
    Identity {
        symbol: record.symbol@,
        time: record.prediction_asof_time@,
        side: record.side@,
        trade_type: record.trade_type@,
        candidate_policy_id: record.candidate_policy_id@,
    }
}

/// The identity of a replayed decision.
pub open spec fn candidate_identity(record: CandidateDecision) -> Identity {
    Identity {
        symbol: record.symbol@,
        time: parity::timestamp_part(record.prediction_asof_ns)->Ok_0,
        side: record.side@,
        trade_type: record.trade_type@,
        candidate_policy_id: record.candidate_policy_id@,
    }
}

/// The identity of a reference label.
pub open spec fn reference_label_identity(record: ReferenceLabel) -> Identity {
    Identity {
        symbol: record.symbol@,
        time: record.entry_time@,
        side: record.side@,
        trade_type: record.trade_type@,
        candidate_policy_id: record.candidate_policy_id@,
    }
}

/// The identity of a replayed label.
pub open spec fn candidate_label_identity(record: CandidateLabel) -> Identity {
    Identity {
        symbol: record.symbol@,
        time: parity::timestamp_part(record.entry_time_ns)->Ok_0,
        side: record.side@,
        trade_type: record.trade_type@,
        candidate_policy_id: record.candidate_policy_id@,
    }
}

/// Whether a reference decision and a replayed one are the same: the same
/// candidate, and the same normalized value in every field.
pub open spec fn same_decision(
    reference: ReferenceDecision,
    references: Seq<ReferenceDecision>,
    candidate: CandidateDecision,
    candidates: Seq<CandidateDecision>,
) -> bool {
    &&& parity::timestamp_part(candidate.prediction_asof_ns) is Ok
    &&& reference_identity(reference) == candidate_identity(candidate)
    &&& parity::reference_parts(reference, parity::reference_entries(references))
        == parity::bullet_parts(candidate, parity::bullet_entries(candidates))
    &&& parity::gathered(parity::bullet_parts(candidate, parity::bullet_entries(candidates))) is Ok
}

/// Whether a reference label and a replayed one are the same: the same
/// candidate, and the same normalized value in every field.
pub open spec fn same_label(reference: ReferenceLabel, candidate: CandidateLabel) -> bool {
    &&& parity::timestamp_part(candidate.entry_time_ns) is Ok
    &&& reference_label_identity(reference) == candidate_label_identity(candidate)
    &&& parity::reference_label_parts(reference) == parity::bullet_label_parts(candidate)
    &&& parity::gathered(parity::bullet_label_parts(candidate)) is Ok
}

proof fn lemma_reference_line(
    reference: ReferenceDecision,
    references: Seq<ReferenceDecision>,
) -> (texts: Seq<Seq<char>>)
    requires
        parity::decision_line(
            parity::reference_parts(reference, parity::reference_entries(references)),
        ) is Ok,
    ensures
        ({
            let p = parity::reference_parts(reference, parity::reference_entries(references));
            &&& parity::decision_line(p) == Ok::<Seq<char>, Seq<char>>(
                parity::decision_json(texts),
            )
            &&& texts.len() == 18
            &&& p.len() == 18
            &&& forall|i: int|
                0 <= i < 18 ==> #[trigger] p[i] == Ok::<Seq<char>, Seq<char>>(texts[i])
            &&& texts[1] == reference_identity(reference).json()
            &&& json::flat(parity::decision_json(texts))
            &&& parity::decision_json(texts).len() > 0
        }),
{
    let p = parity::reference_parts(reference, parity::reference_entries(references));
    lemma_gathered_all(p);
    let texts = parity::gathered(p)->Ok_0;
    assert(p[1] == Ok::<Seq<char>, Seq<char>>(texts[1]));
    lemma_names_flat();
    lemma_object_flat(
        reference_identity(reference),
        parity::decision_names(),
        parity::decision_values(texts),
        17,
    );
    texts
}

proof fn lemma_candidate_line(
    candidate: CandidateDecision,
    candidates: Seq<CandidateDecision>,
) -> (texts: Seq<Seq<char>>)
    requires
        parity::decision_line(
            parity::bullet_parts(candidate, parity::bullet_entries(candidates)),
        ) is Ok,
    ensures
        ({
            let p = parity::bullet_parts(candidate, parity::bullet_entries(candidates));
            &&& parity::decision_line(p) == Ok::<Seq<char>, Seq<char>>(
                parity::decision_json(texts),
            )
            &&& texts.len() == 18
            &&& p.len() == 18
            &&& forall|i: int|
                0 <= i < 18 ==> #[trigger] p[i] == Ok::<Seq<char>, Seq<char>>(texts[i])
            &&& parity::timestamp_part(candidate.prediction_asof_ns) is Ok
            &&& texts[1] == candidate_identity(candidate).json()
            &&& json::flat(parity::decision_json(texts))
            &&& parity::decision_json(texts).len() > 0
        }),
{
    let p = parity::bullet_parts(candidate, parity::bullet_entries(candidates));
    lemma_gathered_all(p);
    let texts = parity::gathered(p)->Ok_0;
    assert(p[1] == Ok::<Seq<char>, Seq<char>>(texts[1]));
    lemma_names_flat();
    lemma_object_flat(
        candidate_identity(candidate),
        parity::decision_names(),
        parity::decision_values(texts),
        17,
    );
    texts
}

/// Equal lines come from the same decision.
proof fn lemma_same_decision(
    reference: ReferenceDecision,
    references: Seq<ReferenceDecision>,
    candidate: CandidateDecision,
    candidates: Seq<CandidateDecision>,
)
    requires
        ({
            let line = parity::decision_line(
                parity::reference_parts(reference, parity::reference_entries(references)),
            );
            line is Ok && line == parity::decision_line(
                parity::bullet_parts(candidate, parity::bullet_entries(candidates)),
            )
        }),
    ensures
        same_decision(reference, references, candidate, candidates),
{
    let s = lemma_reference_line(reference, references);
    let t = lemma_candidate_line(candidate, candidates);
    let v = parity::decision_values(s);
    let w = parity::decision_values(t);
    lemma_object_unique(
        reference_identity(reference),
        candidate_identity(candidate),
        parity::decision_names(),
        v,
        w,
        17,
    );
    lemma_same_texts(s, t);
    lemma_same_parts(
        parity::reference_parts(reference, parity::reference_entries(references)),
        parity::bullet_parts(candidate, parity::bullet_entries(candidates)),
        s,
    );
}

/// The values of a decision's fields and its candidate are all its texts.
proof fn lemma_same_texts(s: Seq<Seq<char>>, t: Seq<Seq<char>>)
    requires
        s.len() == 18,
        t.len() == 18,
        s[1] == t[1],
        forall|i: int|
            0 <= i < 17 ==> #[trigger] parity::decision_values(s)[i] == parity::decision_values(
                t,
            )[i],
    ensures
        s == t,
{
    let v = parity::decision_values(s);
    let w = parity::decision_values(t);
    assert(v[0] == w[0] && v[1] == w[1] && v[2] == w[2] && v[3] == w[3] && v[4] == w[4]);
    assert(v[5] == w[5] && v[6] == w[6] && v[7] == w[7] && v[8] == w[8] && v[9] == w[9]);
    assert(v[10] == w[10] && v[11] == w[11] && v[12] == w[12] && v[13] == w[13]);
    assert(v[14] == w[14] && v[15] == w[15] && v[16] == w[16]);
    assert(s =~= t);
}

/// Parts with the same texts are the same.
proof fn lemma_same_parts(p: Seq<Part>, q: Seq<Part>, texts: Seq<Seq<char>>)
    requires
        p.len() == q.len() == texts.len(),
        forall|i: int|
            0 <= i < p.len() ==> #[trigger] p[i] == Ok::<Seq<char>, Seq<char>>(texts[i]),
        forall|i: int|
            0 <= i < q.len() ==> #[trigger] q[i] == Ok::<Seq<char>, Seq<char>>(texts[i]),
    ensures
        p == q,
{
    assert forall|i: int| 0 <= i < p.len() implies #[trigger] p[i] == q[i] by {
        assert(q[i] == Ok::<Seq<char>, Seq<char>>(texts[i]));
    }
    assert(p =~= q);
}

proof fn lemma_reference_label_line(reference: ReferenceLabel) -> (texts: Seq<Seq<char>>)
    requires
        parity::label_line(parity::reference_label_parts(reference)) is Ok,
    ensures
        ({
            let p = parity::reference_label_parts(reference);
            &&& parity::label_line(p) == Ok::<Seq<char>, Seq<char>>(parity::label_json(texts))
            &&& texts.len() == 6
            &&& p.len() == 6
            &&& forall|i: int|
                0 <= i < 6 ==> #[trigger] p[i] == Ok::<Seq<char>, Seq<char>>(texts[i])
            &&& texts[0] == reference_label_identity(reference).json()
            &&& json::flat(parity::label_json(texts))
            &&& parity::label_json(texts).len() > 0
        }),
{
    let p = parity::reference_label_parts(reference);
    lemma_gathered_all(p);
    let texts = parity::gathered(p)->Ok_0;
    assert(p[0] == Ok::<Seq<char>, Seq<char>>(texts[0]));
    lemma_names_flat();
    lemma_object_flat(
        reference_label_identity(reference),
        parity::label_names(),
        seq![texts[1], texts[2], texts[3], texts[4], texts[5]],
        5,
    );
    texts
}

proof fn lemma_candidate_label_line(candidate: CandidateLabel) -> (texts: Seq<Seq<char>>)
    requires
        parity::bullet_label_line(candidate) is Ok,
    ensures
        ({
            let p = parity::bullet_label_parts(candidate);
            &&& parity::bullet_label_line(candidate) == Ok::<Seq<char>, Seq<char>>(
                parity::label_json(texts),
            )
            &&& texts.len() == 6
            &&& p.len() == 6
            &&& forall|i: int|
                0 <= i < 6 ==> #[trigger] p[i] == Ok::<Seq<char>, Seq<char>>(texts[i])
            &&& parity::timestamp_part(candidate.entry_time_ns) is Ok
            &&& texts[0] == candidate_label_identity(candidate).json()
            &&& json::flat(parity::label_json(texts))
            &&& parity::label_json(texts).len() > 0
        }),
{
    let p = parity::bullet_label_parts(candidate);
    lemma_gathered_all(p);
    let texts = parity::gathered(p)->Ok_0;
    assert(p[0] == Ok::<Seq<char>, Seq<char>>(texts[0]));
    lemma_names_flat();
    lemma_object_flat(
        candidate_label_identity(candidate),
        parity::label_names(),
        seq![texts[1], texts[2], texts[3], texts[4], texts[5]],
        5,
    );
    texts
}

/// Equal lines come from the same label.
proof fn lemma_same_label(reference: ReferenceLabel, candidate: CandidateLabel)
    requires
        parity::bullet_label_line(candidate) is Ok,
        parity::label_line(parity::reference_label_parts(reference))
            == parity::bullet_label_line(candidate),
    ensures
        same_label(reference, candidate),
{
    let s = lemma_reference_label_line(reference);
    let t = lemma_candidate_label_line(candidate);
    let v = seq![s[1], s[2], s[3], s[4], s[5]];
    let w = seq![t[1], t[2], t[3], t[4], t[5]];
    lemma_object_unique(
        reference_label_identity(reference),
        candidate_label_identity(candidate),
        parity::label_names(),
        v,
        w,
        5,
    );
    assert(v[0] == w[0] && v[1] == w[1] && v[2] == w[2] && v[3] == w[3] && v[4] == w[4]);
    assert(s =~= t);
    lemma_same_parts(
        parity::reference_label_parts(reference),
        parity::bullet_label_parts(candidate),
        s,
    );
}

/// Whether a decision has its like among replayed ones.
pub open spec fn has_candidate(
    reference: ReferenceDecision,
    references: Seq<ReferenceDecision>,
    candidates: Seq<CandidateDecision>,
) -> bool {
    exists|j: int|
        0 <= j < candidates.len() && #[trigger] same_decision(
            reference,
            references,
            candidates[j],
            candidates,
        )
}

/// Whether a replayed decision has its like in the reference.
pub open spec fn has_reference(
    candidate: CandidateDecision,
    candidates: Seq<CandidateDecision>,
    references: Seq<ReferenceDecision>,
) -> bool {
    exists|i: int|
        0 <= i < references.len() && #[trigger] same_decision(
            references[i],
            references,
            candidate,
            candidates,
        )
}

/// Whether a label has its like among replayed ones.
pub open spec fn has_candidate_label(
    reference: ReferenceLabel,
    candidates: Seq<CandidateLabel>,
) -> bool {
    exists|j: int| 0 <= j < candidates.len() && #[trigger] same_label(reference, candidates[j])
}

/// Whether a replayed label has its like in the reference.
pub open spec fn has_reference_label(
    candidate: CandidateLabel,
    references: Seq<ReferenceLabel>,
) -> bool {
    exists|i: int| 0 <= i < references.len() && #[trigger] same_label(references[i], candidate)
}

/// Decisions whose canonical texts agree are the same, one by one.
proof fn lemma_decisions_agree(
    candidates: Seq<CandidateDecision>,
    references: Seq<ReferenceDecision>,
    text: String,
    other: String,
)
    requires
        parity::is_lines(Ok(text), parity::reference_lines(references)),
        parity::is_lines(Ok(other), parity::bullet_lines(candidates)),
        text@ == other@,
    ensures
        references.len() == candidates.len(),
        forall|i: int|
            0 <= i < references.len() ==> has_candidate(
                #[trigger] references[i],
                references,
                candidates,
            ),
        forall|j: int|
            0 <= j < candidates.len() ==> has_reference(
                #[trigger] candidates[j],
                candidates,
                references,
            ),
{
    let a = parity::reference_lines(references);
    let b = parity::bullet_lines(candidates);
    assert forall|i: int| 0 <= i < a.len() && (#[trigger] a[i]) is Ok implies json::flat(
        a[i]->Ok_0,
    ) && a[i]->Ok_0.len() > 0 by {
        let t = lemma_reference_line(references[i], references);
    }
    assert forall|j: int| 0 <= j < b.len() && (#[trigger] b[j]) is Ok implies json::flat(
        b[j]->Ok_0,
    ) && b[j]->Ok_0.len() > 0 by {
        let t = lemma_candidate_line(candidates[j], candidates);
    }
    lemma_same_lines(a, b, text, other);
    assert forall|i: int| 0 <= i < references.len() implies has_candidate(
        #[trigger] references[i],
        references,
        candidates,
    ) by {
        assert(b.contains(a[i]));
        let j = choose|j: int| 0 <= j < b.len() && b[j] == a[i];
        lemma_same_decision(references[i], references, candidates[j], candidates);
    }
    assert forall|j: int| 0 <= j < candidates.len() implies has_reference(
        #[trigger] candidates[j],
        candidates,
        references,
    ) by {
        assert(a.contains(b[j]));
        let i = choose|i: int| 0 <= i < a.len() && a[i] == b[j];
        lemma_same_decision(references[i], references, candidates[j], candidates);
    }
}

/// Labels whose canonical texts agree are the same, one by one.
proof fn lemma_labels_agree(
    candidates: Seq<CandidateLabel>,
    references: Seq<ReferenceLabel>,
    text: String,
    other: String,
)
    requires
        parity::is_lines(Ok(text), parity::reference_label_lines(references)),
        parity::is_lines(Ok(other), parity::bullet_label_lines(candidates)),
        text@ == other@,
    ensures
        references.len() == candidates.len(),
        forall|i: int|
            0 <= i < references.len() ==> has_candidate_label(
                #[trigger] references[i],
                candidates,
            ),
        forall|j: int|
            0 <= j < candidates.len() ==> has_reference_label(
                #[trigger] candidates[j],
                references,
            ),
{
    let a = parity::reference_label_lines(references);
    let b = parity::bullet_label_lines(candidates);
    assert forall|i: int| 0 <= i < a.len() && (#[trigger] a[i]) is Ok implies json::flat(
        a[i]->Ok_0,
    ) && a[i]->Ok_0.len() > 0 by {
        let t = lemma_reference_label_line(references[i]);
    }
    assert forall|j: int| 0 <= j < b.len() && (#[trigger] b[j]) is Ok implies json::flat(
        b[j]->Ok_0,
    ) && b[j]->Ok_0.len() > 0 by {
        let t = lemma_candidate_label_line(candidates[j]);
    }
    lemma_same_lines(a, b, text, other);
    assert forall|i: int| 0 <= i < references.len() implies has_candidate_label(
        #[trigger] references[i],
        candidates,
    ) by {
        assert(b.contains(a[i]));
        let j = choose|j: int| 0 <= j < b.len() && b[j] == a[i];
        lemma_same_label(references[i], candidates[j]);
    }
    assert forall|j: int| 0 <= j < candidates.len() implies has_reference_label(
        #[trigger] candidates[j],
        references,
    ) by {
        assert(a.contains(b[j]));
        let i = choose|i: int| 0 <= i < a.len() && a[i] == b[j];
        lemma_same_label(references[i], candidates[j]);
    }
}

/// A ledger that passes holds what its reference holds: as many decisions and
/// labels, and for each of either side its like on the other, with the same
/// candidate and the same normalized value in every field. Any difference is
/// refused.
pub proof fn law_passing_ledgers_agree(
    summary: ParitySummary,
    decisions: Seq<CandidateDecision>,
    labels: Seq<CandidateLabel>,
    reference_decisions: Seq<ReferenceDecision>,
    reference_labels: Seq<ReferenceLabel>,
)
    requires
        parity::is_verification(
            Ok(summary),
            decisions,
            labels,
            reference_decisions,
            reference_labels,
        ),
    ensures
        reference_decisions.len() == decisions.len(),
        reference_labels.len() == labels.len(),
        forall|i: int|
            0 <= i < reference_decisions.len() ==> has_candidate(
                #[trigger] reference_decisions[i],
                reference_decisions,
                decisions,
            ),
        forall|j: int|
            0 <= j < decisions.len() ==> has_reference(
                #[trigger] decisions[j],
                decisions,
                reference_decisions,
            ),
        forall|i: int|
            0 <= i < reference_labels.len() ==> has_candidate_label(
                #[trigger] reference_labels[i],
                labels,
            ),
        forall|j: int|
            0 <= j < labels.len() ==> has_reference_label(
                #[trigger] labels[j],
                reference_labels,
            ),
{
    let (a, b, c, d) = choose|
        a: Result<String, String>,
        b: Result<String, String>,
        c: Result<String, String>,
        d: Result<String, String>,
    |
        {
            &&& parity::is_ledger(
                a,
                parity::reference_entries(reference_decisions),
                "reference decisions contain duplicate candidate_id values"@,
                parity::reference_lines(reference_decisions),
            )
            &&& parity::is_ledger(
                b,
                parity::bullet_entries(decisions),
                "Bullet decisions contain duplicate candidate_id values"@,
                parity::bullet_lines(decisions),
            )
            &&& parity::is_lines(c, parity::reference_label_lines(reference_labels))
            &&& parity::is_lines(d, parity::bullet_label_lines(labels))
            &&& #[trigger] parity::is_verdict(
                Ok(summary),
                a,
                b,
                c,
                d,
                decisions.len() as int,
                labels.len() as int,
            )
        };
    lemma_decisions_agree(decisions, reference_decisions, a->Ok_0, b->Ok_0);
    lemma_labels_agree(labels, reference_labels, c->Ok_0, d->Ok_0);
}

} // verus!
