use bullet::arrange::arrange;
use bullet::binary64::Binary64;
use bullet::decimal::{fixed_text, units};
use bullet::live::command::Sample;
use bullet::ordered::{TextMap, TextSet};
use bullet::statistics::{average, total};
use bullet::text::{
    compare, is_before, is_blank, numeral_text, parse_count, push_integer, push_padded, same,
    strip_prefix, trim, trim_end_of, trim_start, Comparison,
};

fn of(value: f64) -> Binary64 {
    Binary64::from_bits(value.to_bits())
}

#[test]
fn texts_are_ordered_by_their_characters() {
    let words = ["", "A", "AB", "B", "a", "\u{e9}", "\u{4e2d}", "\u{10348}"];
    for a in words {
        for b in words {
            assert_eq!(is_before(a, b), a < b);
            assert_eq!(same(a, b), a == b);
        }
    }
    assert_eq!(compare("IC", "IF"), Comparison::Before);
    assert_eq!(compare("IF", "IF"), Comparison::Same);
    assert_eq!(compare("IG", "IF"), Comparison::After);
}

#[test]
fn whitespace_is_taken_off() {
    for text in ["", "  ", " a b ", "\t\u{2003}x\u{85}", "x", "\u{200b}x"] {
        assert_eq!(trim(text), text.trim());
        assert_eq!(trim_start(text), text.trim_start());
        assert_eq!(is_blank(text), text.trim().is_empty());
    }
    assert_eq!(trim_end_of("a//b//", '/'), "a//b");
    assert_eq!(trim_end_of("///", '/'), "");
    assert_eq!(strip_prefix("data: 1", "data:").as_deref(), Some(" 1"));
    assert_eq!(strip_prefix("dat", "data:"), None);
}

#[test]
fn numbers_are_written_and_read() {
    assert_eq!(numeral_text(0), "0");
    assert_eq!(numeral_text(u64::MAX), u64::MAX.to_string());
    let mut out = String::new();
    push_integer(&mut out, i64::MIN);
    assert_eq!(out, i64::MIN.to_string());
    let mut out = String::new();
    push_padded(&mut out, 42, 5);
    assert_eq!(out, "00042");
    for text in ["0", "007", "+5", "18446744073709551615", "18446744073709551616", "99999999999999999999999x", "18446744073709551615x", "1x99999999999999999999999", "",
        "+", "-1", "1x"] {
        match (parse_count(text), text.parse::<usize>()) {
            (Ok(a), Ok(b)) => assert_eq!(a, b),
            (Err(a), Err(b)) => assert_eq!(a, b.to_string()),
            (a, b) => panic!("{a:?} {b:?}"),
        }
    }
}

#[test]
fn fixed_decimals_agree_with_the_standard_library() {
    let values = [
        0.0, -0.0, 0.5, 1.5, 2.5, 0.125, 0.375, 7_123.5, -0.005, 0.015, 1.005, 1e15, 1e-9,
        123_456_789.123_456_78, f64::MIN_POSITIVE, 4_503_599_627_370_495.5,
    ];
    for value in values {
        assert_eq!(fixed_text(of(value), 2), format!("{value:.2}"));
        assert_eq!(fixed_text(of(value), 14), format!("{value:.14}"));
    }
    assert_eq!(units(of(1.25), 1, 1_000), Some(12));
    assert_eq!(units(of(1.35), 1, 1_000), Some(14));
    assert_eq!(units(of(1e9), 1, 1_000), None);
}

#[test]
fn sums_run_from_the_left() {
    let values: Vec<Binary64> = [0.1, 0.2, 0.3, 1e16, 1.0].iter().map(|v| of(*v)).collect();
    assert_eq!(total(&values, 0), of(0.0 + 0.1 + 0.2 + 0.3 + 1e16 + 1.0));
    assert_eq!(average(&values, 3), of((0.0 + 1e16 + 1.0) / 2.0));
}

#[test]
fn sets_and_maps_are_kept_in_order() {
    let mut set = TextSet::new();
    assert!(set.insert("b".into()));
    assert!(set.insert("a".into()));
    assert!(!set.insert("b".into()));
    assert!(set.contains("a"));
    assert!(!set.contains("c"));
    assert_eq!(set.into_keys(), ["a", "b"]);
    let mut map = TextMap::new();
    map.set("b".into(), 1);
    map.set("a".into(), 2);
    map.set("b".into(), 3);
    assert_eq!(map.len(), 2);
    assert_eq!((map.key(0).as_str(), *map.value(0)), ("a", 2));
    assert_eq!(map.get("b"), Some(&3));
    if let Some(value) = map.get_mut("a") {
        *value = 7;
    }
    assert_eq!(map.get("a"), Some(&7));
    assert!(map.remove("b"));
    assert!(!map.remove("b"));
    assert!(!map.contains("b"));
}

#[test]
fn arranging_sorts() {
    let samples = [5, 3, 9, 3, 1].map(|nanoseconds| Sample { nanoseconds });
    assert_eq!(
        arrange(samples.to_vec())
            .iter()
            .map(|sample| sample.nanoseconds)
            .collect::<Vec<_>>(),
        [1, 3, 3, 5, 9]
    );
}
