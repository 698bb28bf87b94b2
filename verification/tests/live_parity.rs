use bullet::binary64::Binary64;
use bullet::live::parity::{
    boolean, canonical_bullet_decisions, canonical_bullet_labels, canonical_lines,
    canonical_reference_decisions, canonical_reference_labels, compare, decimal_number, unsigned, verify, CandidateDecision,
    CandidateLabel, ReferenceDecision, ReferenceLabel,
};

fn of(value: f64) -> Binary64 {
    Binary64::from_bits(value.to_bits())
}

const AT_NS: u64 = 1_786_440_600_000_000_000;
const AT: &str = "2026-08-11 09:30:00";

fn reference(id: &str, policy: &str, incumbent: &str) -> ReferenceDecision {
    ReferenceDecision {
        candidate_id: id.into(),
        symbol: "IF8888".into(),
        side: "LONG".into(),
        trade_type: "trend".into(),
        candidate_policy_id: policy.into(),
        planned_exit_policy: "eod".into(),
        prediction_asof_time: AT.into(),
        prediction_key: "k\"1".into(),
        candidate_pred: Ok(of(0.125)),
        history_count: "007".into(),
        history_max_label_available_time: AT.into(),
        decision: "accept".into(),
        reject_reason: "".into(),
        active_count: "1".into(),
        used_weight: Ok(of(0.7)),
        candidate_weight: Ok(of(0.3)),
        same_symbol_count: "+2".into(),
        incumbent_trade_id: incumbent.into(),
        incumbent_candidate_policy_id: "".into(),
        incumbent_pred: None,
        replacement_margin: Some(Ok(of(-0.0))),
        capital_ok: "True".into(),
        symbol_ok: "".into(),
    }
}

fn candidate(id: &str, policy: &str, incumbent: Option<&str>) -> CandidateDecision {
    CandidateDecision {
        candidate_id: id.into(),
        symbol: "IF8888".into(),
        side: "LONG".into(),
        trade_type: "trend".into(),
        candidate_policy_id: policy.into(),
        planned_exit_policy: "eod".into(),
        prediction_asof_ns: AT_NS,
        prediction_key: "k\"1".into(),
        candidate_pred: of(0.125),
        history_count: 7,
        history_max_label_available_ns: Some(AT_NS),
        decision: "accept".into(),
        reject_reason: None,
        active_count: 1,
        used_weight: of(0.7),
        candidate_weight: of(0.3),
        same_symbol_count: 2,
        incumbent_candidate_id: incumbent.map(|id| id.into()),
        incumbent_candidate_policy_id: None,
        incumbent_pred: None,
        replacement_margin: Some(of(0.0)),
        capital_ok: Some(true),
        symbol_ok: None,
    }
}

fn reference_label(policy: &str, trade_return: f64) -> ReferenceLabel {
    ReferenceLabel {
        symbol: "IF8888".into(),
        side: "LONG".into(),
        trade_type: "trend".into(),
        candidate_policy_id: policy.into(),
        entry_time: AT.into(),
        entry_price: Ok(of(4_000.0)),
        label_available_time: AT.into(),
        exit_time: AT.into(),
        exit_price: Ok(of(4_001.5)),
        trade_return: Ok(of(trade_return)),
    }
}

fn label(policy: &str, trade_return: f64) -> CandidateLabel {
    CandidateLabel {
        symbol: "IF8888".into(),
        side: "LONG".into(),
        trade_type: "trend".into(),
        candidate_policy_id: policy.into(),
        entry_time_ns: AT_NS,
        entry_price: of(4_000.0),
        label_available_ns: AT_NS,
        exit_price: of(4_001.5),
        trade_return: of(trade_return),
    }
}

const IDENTITY: &str = "{\"symbol\":\"IF8888\",\"time\":\"2026-08-11 09:30:00\",\"side\":\"LONG\",\"trade_type\":\"trend\",\"candidate_policy_id\":\"p\"}";

#[test]
fn canonical_decimal_removes_negative_zero() {
    assert_eq!(decimal_number(of(-0.0)).unwrap(), "0.00000000000000");
    assert_eq!(decimal_number(of(0.125)).unwrap(), "0.12500000000000");
}

#[test]
fn decimals_are_rounded_to_the_nearest_of_fourteen_places() {
    assert_eq!(decimal_number(of(0.1)).unwrap(), "0.10000000000000");
    assert_eq!(decimal_number(of(1.0 / 3.0)).unwrap(), "0.33333333333333");
    assert_eq!(decimal_number(of(-2.0 / 3.0)).unwrap(), "-0.66666666666667");
    assert_eq!(decimal_number(of(1e22)).unwrap(), "10000000000000000000000.00000000000000");
    for value in [1.5, -7_123.062_5, 4e-15, 6e-15, 123_456.789_012_345_67, 1e300, 5e-324] {
        assert_eq!(decimal_number(of(value)).unwrap(), format!("{value:.14}"));
    }
    assert_eq!(
        decimal_number(of(f64::NAN)),
        Err("canonical ledger contains a non-finite decimal".to_owned())
    );
}

#[test]
fn a_decision_has_one_canonical_line() {
    let line = format!(
        "{{\"candidate\":{IDENTITY},\"planned_exit_policy\":\"eod\",\"prediction_key\":\"k\\\"1\",\"candidate_pred\":\"0.12500000000000\",\"history_count\":\"7\",\"history_max_label_available_time\":\"{AT}\",\"decision\":\"accept\",\"reject_reason\":\"\",\"active_count\":\"1\",\"used_weight\":\"0.70000000000000\",\"candidate_weight\":\"0.30000000000000\",\"same_symbol_count\":\"2\",\"incumbent_candidate\":\"{}\",\"incumbent_candidate_policy_id\":\"\",\"incumbent_pred\":\"\",\"replacement_margin\":\"0.00000000000000\",\"capital_ok\":\"true\",\"symbol_ok\":\"\"}}\n",
        IDENTITY.replace('"', "\\\"")
    );
    assert_eq!(
        canonical_reference_decisions(&[reference("a", "p", "a")]).unwrap(),
        line
    );
    assert_eq!(
        canonical_bullet_decisions(&[candidate("z", "p", Some("z"))]).unwrap(),
        line
    );
}

#[test]
fn a_label_has_one_canonical_line() {
    let line = format!(
        "{{\"candidate\":{IDENTITY},\"entry_price\":\"4000.00000000000000\",\"label_available_time\":\"{AT}\",\"exit_time\":\"{AT}\",\"exit_price\":\"4001.50000000000000\",\"trade_return\":\"-0.01000000000000\"}}\n"
    );
    assert_eq!(
        canonical_reference_labels(&[reference_label("p", -0.01)]).unwrap(),
        line
    );
    assert_eq!(canonical_bullet_labels(&[label("p", -0.01)]).unwrap(), line);
}

#[test]
fn ledgers_agree_whatever_order_their_records_come_in() {
    let summary = verify(
        &[candidate("1", "p", None), candidate("2", "q", Some("1"))],
        &[label("p", 0.5), label("q", 0.25)],
        &[reference("y", "q", "x"), reference("x", "p", "")],
        &[reference_label("q", 0.25), reference_label("p", 0.5)],
    )
    .unwrap();
    assert_eq!(summary.decisions, 2);
    assert_eq!(summary.labels, 2);
    let decisions =
        canonical_bullet_decisions(&[candidate("1", "p", None), candidate("2", "q", Some("1"))])
            .unwrap();
    let labels = canonical_bullet_labels(&[label("p", 0.5), label("q", 0.25)]).unwrap();
    assert_eq!(summary.canonical_bytes, decisions.len() + labels.len());
}

#[test]
fn a_difference_is_shown_with_its_line() {
    let mut other = candidate("1", "p", None);
    other.decision = "reject".into();
    let error = verify(&[other], &[], &[reference("x", "p", "")], &[]).unwrap_err();
    assert!(error.starts_with("lab0334 parity failed for decisions at canonical line 1: reference={"));
    let error = verify(
        &[candidate("1", "p", None)],
        &[],
        &[reference("x", "p", "")],
        &[reference_label("p", 1.0)],
    )
    .unwrap_err();
    assert!(error.starts_with("lab0334 parity failed for labels at canonical line 1: reference={"));
    assert!(error.ends_with("} bullet="));
    assert_eq!(
        compare("names", "a\nb\n", "a\n"),
        Err("lab0334 parity failed for names at canonical line 2: reference=b bullet=<end>".to_owned())
    );
    assert_eq!(compare("names", "a\n", "a\n"), Ok(()));
}

#[test]
fn ledgers_that_make_no_sense_are_refused() {
    assert_eq!(
        canonical_reference_decisions(&[reference("a", "p", ""), reference("a", "q", "")]),
        Err("reference decisions contain duplicate candidate_id values".to_owned())
    );
    assert_eq!(
        canonical_bullet_decisions(&[candidate("a", "p", None), candidate("a", "q", None)]),
        Err("Bullet decisions contain duplicate candidate_id values".to_owned())
    );
    assert_eq!(
        canonical_bullet_decisions(&[candidate("a", "p", None), candidate("b", "p", None)]),
        Err("canonical ledger contains duplicate records".to_owned())
    );
    assert_eq!(
        canonical_reference_decisions(&[reference("a", "p", "ghost")]),
        Err("incumbent candidate ghost is absent from the decision ledger".to_owned())
    );
    let mut unread = reference("a", "p", "");
    unread.candidate_pred = Err("invalid decimal \"x\": invalid float literal".into());
    assert_eq!(
        canonical_reference_decisions(&[unread]),
        Err("invalid decimal \"x\": invalid float literal".to_owned())
    );
    let mut late = candidate("a", "p", None);
    late.prediction_asof_ns = u64::MAX;
    assert_eq!(
        canonical_bullet_decisions(&[late]),
        Err("timestamp is outside chrono range".to_owned())
    );
}

#[test]
fn fields_are_read_strictly() {
    assert_eq!(unsigned("007"), Ok("7".to_owned()));
    assert_eq!(unsigned("+12"), Ok("12".to_owned()));
    assert_eq!(
        unsigned(""),
        Err("invalid unsigned integer \"\": cannot parse integer from empty string".to_owned())
    );
    for value in ["-1", "+", "1 ", "\n\"", "99999999999999999999"] {
        let expected = value
            .parse::<usize>()
            .map(|number| number.to_string())
            .map_err(|error| format!("invalid unsigned integer {value:?}: {error}"));
        assert_eq!(unsigned(value), expected);
    }
    assert_eq!(boolean("True"), Ok("true".to_owned()));
    assert_eq!(boolean("false"), Ok("false".to_owned()));
    assert_eq!(boolean(""), Ok("".to_owned()));
    assert_eq!(
        boolean("TRUE\t"),
        Err("invalid boolean \"TRUE\\t\"".to_owned())
    );
}

#[test]
fn canonical_lines_are_sorted_and_different() {
    let line = |text: &str| Ok(text.to_owned());
    assert_eq!(
        canonical_lines(vec![line("b"), line("a"), line("")]),
        Ok("\na\nb\n".to_owned())
    );
    assert_eq!(canonical_lines(vec![]), Ok("\n".to_owned()));
    assert_eq!(
        canonical_lines(vec![line("b"), line("b")]),
        Err("canonical ledger contains duplicate records".to_owned())
    );
    assert_eq!(
        canonical_lines(vec![line("b"), Err("first".into()), Err("second".into())]),
        Err("first".to_owned())
    );
}

#[test]
fn texts_are_written_as_json() {
    let texts = [
        "",
        "plain",
        "\"quoted\"",
        "back\\slash/",
        "\u{0}\u{1}\u{7}\u{8}\t\n\u{b}\u{c}\r\u{e}\u{1f}\u{7f}",
        "\u{e9}\u{4e2d}\u{2028}\u{10348}",
    ];
    for text in texts {
        let mut record = label("p", 0.5);
        record.symbol = text.into();
        let line = canonical_bullet_labels(&[record]).unwrap();
        let expected = format!(
            "{{\"candidate\":{{\"symbol\":{},\"time\":",
            serde_json::to_string(text).unwrap()
        );
        assert!(line.starts_with(&expected), "{line}");
        assert_eq!(line.matches('\n').count(), 1);
    }
}

#[test]
fn every_field_counts() {
    let changes: [fn(&mut CandidateDecision); 8] = [
        |decision| decision.symbol = "IC8888".into(),
        |decision| decision.prediction_asof_ns += 1_000_000_000,
        |decision| decision.planned_exit_policy = "late".into(),
        |decision| decision.candidate_pred = of(0.125_000_000_000_01),
        |decision| decision.history_count = 8,
        |decision| decision.reject_reason = Some("\",\"active_count\":\"1".into()),
        |decision| decision.capital_ok = Some(false),
        |decision| decision.replacement_margin = None,
    ];
    let passes = |decision: CandidateDecision| {
        verify(&[decision], &[], &[reference("x", "p", "")], &[]).is_ok()
    };
    assert!(passes(candidate("1", "p", None)));
    for change in changes {
        let mut changed = candidate("1", "p", None);
        change(&mut changed);
        assert!(!passes(changed));
    }
    let mut near = candidate("1", "p", None);
    near.candidate_pred = of(0.125_000_000_000_000_1);
    assert!(passes(near));
}
