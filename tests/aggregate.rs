use tsv_aggregate::decimal::{parse_fixed, render_fixed};
use tsv_aggregate::operations::{float_compute, median, Fraction, Operation, OperationResult};

fn units(texts: &[&str]) -> Vec<i64> {
    texts
        .iter()
        .map(|t| parse_fixed(t.as_bytes()).expect("a number"))
        .collect()
}

fn number(r: Option<OperationResult>) -> Fraction {
    match r {
        Some(OperationResult::Number(f)) => f,
        other => panic!("expected a number, got {:?}", other),
    }
}

fn as_f64(f: Fraction) -> f64 {
    f.num as f64 / f.den as f64 / 1_000_000.0
}

#[test]
fn sum_is_independent_of_order() {
    let a = units(&["1.5", "-2", "10.25", "3"]);
    let b = units(&["3", "10.25", "1.5", "-2"]);
    let sa = number(float_compute(Operation::Sum, &a));
    let sb = number(float_compute(Operation::Sum, &b));
    assert_eq!(sa, sb);
    assert_eq!(sa, Fraction { num: 12_750_000, den: 1 });
    assert!((as_f64(sa) - 12.75).abs() < 1e-9);
}

#[test]
fn median_of_odd_and_even_counts() {
    assert_eq!(
        median(&units(&["1", "2", "3"])),
        Some(Fraction { num: 2_000_000, den: 1 })
    );
    let even = median(&units(&["1", "2", "3", "4"])).unwrap();
    assert_eq!(even, Fraction { num: 5_000_000, den: 2 });
    assert_eq!(as_f64(even), 2.5);
}

#[test]
fn median_sorts_a_copy() {
    let data = units(&["9", "1", "5", "3"]);
    let before = data.clone();
    assert_eq!(median(&data), Some(Fraction { num: 8_000_000, den: 2 }));
    assert_eq!(data, before);
    assert_eq!(median(&[7, -3, 7]), Some(Fraction { num: 7, den: 1 }));
}

#[test]
fn empty_groups() {
    let empty: Vec<i64> = Vec::new();
    assert_eq!(float_compute(Operation::Mean, &empty), None);
    assert_eq!(
        float_compute(Operation::Sum, &empty),
        Some(OperationResult::Number(Fraction { num: 0, den: 1 }))
    );
    assert_eq!(float_compute(Operation::Min, &empty), None);
    assert_eq!(float_compute(Operation::Max, &empty), None);
    assert_eq!(float_compute(Operation::Median, &empty), None);
    assert_eq!(median(&empty), None);
    assert_eq!(
        float_compute(Operation::Collapse, &empty),
        Some(OperationResult::String(String::new()))
    );
}

#[test]
fn collapse_keeps_order_and_duplicates() {
    let data = units(&["1.0", "2.5", "1.0"]);
    assert_eq!(
        float_compute(Operation::Collapse, &data),
        Some(OperationResult::String("1, 2.5, 1".to_string()))
    );
}

#[test]
fn min_max_mean() {
    let data = units(&["4", "-1.25", "7", "0"]);
    assert_eq!(
        number(float_compute(Operation::Min, &data)),
        Fraction { num: -1_250_000, den: 1 }
    );
    assert_eq!(
        number(float_compute(Operation::Max, &data)),
        Fraction { num: 7_000_000, den: 1 }
    );
    assert_eq!(
        number(float_compute(Operation::Mean, &data)),
        Fraction { num: 9_750_000, den: 4 }
    );
}

#[test]
fn sum_does_not_overflow() {
    let data = vec![i64::MAX, i64::MAX, i64::MAX];
    assert_eq!(
        number(float_compute(Operation::Sum, &data)),
        Fraction { num: 3 * (i64::MAX as i128), den: 1 }
    );
    let low = vec![i64::MIN, i64::MIN];
    assert_eq!(
        number(float_compute(Operation::Median, &low)),
        Fraction { num: 2 * (i64::MIN as i128), den: 2 }
    );
}

#[test]
fn parse_forms() {
    assert_eq!(parse_fixed(b"5.0"), Some(5_000_000));
    assert_eq!(parse_fixed(b"+3"), Some(3_000_000));
    assert_eq!(parse_fixed(b"-0.5"), Some(-500_000));
    assert_eq!(parse_fixed(b"0.000001"), Some(1));
    assert_eq!(parse_fixed(b"007.10"), Some(7_100_000));
    assert_eq!(parse_fixed(b""), None);
    assert_eq!(parse_fixed(b"-"), None);
    assert_eq!(parse_fixed(b"1."), None);
    assert_eq!(parse_fixed(b".5"), None);
    assert_eq!(parse_fixed(b"1.1234567"), None);
    assert_eq!(parse_fixed(b"1e5"), None);
    assert_eq!(parse_fixed(b"abc"), None);
    assert_eq!(parse_fixed(b" 1"), None);
}

#[test]
fn parse_limits() {
    assert_eq!(parse_fixed(b"9223372036854.775807"), Some(i64::MAX));
    assert_eq!(parse_fixed(b"9223372036854.775808"), None);
    assert_eq!(parse_fixed(b"-9223372036854.775808"), Some(i64::MIN));
    assert_eq!(parse_fixed(b"-9223372036854.775809"), None);
    assert_eq!(parse_fixed(b"123456789012345678901234567890"), None);
}

#[test]
fn render_forms() {
    assert_eq!(render_fixed(0), "0");
    assert_eq!(render_fixed(1_000_000), "1");
    assert_eq!(render_fixed(2_500_000), "2.5");
    assert_eq!(render_fixed(-500_000), "-0.5");
    assert_eq!(render_fixed(1), "0.000001");
    assert_eq!(render_fixed(12_340_000_000), "12340");
    assert_eq!(render_fixed(i64::MIN), "-9223372036854.775808");
    assert_eq!(render_fixed(i64::MAX), "9223372036854.775807");
}

#[test]
fn render_parses_back() {
    for v in [0i64, 7, -7, 1_234_567, -98_000_000, i64::MAX, i64::MIN] {
        let text = render_fixed(v);
        assert_eq!(parse_fixed(text.as_bytes()), Some(v));
    }
}
