use jch::numbers::FloatVal;
use jch::numbers::NumClass;
use jch::numbers::classify;
use jch::numbers::float_le;
use jch::numbers::float_max_val;
use jch::numbers::float_min_val;
use jch::numbers::parse_float;
use jch::numbers::text_le;
use jch::text::u64_to_string;

fn le(a: &str, b: &str) -> bool {
    let fa = parse_float(a);
    let fb = parse_float(b);
    float_le(&fa, &fb)
}

#[test]
fn classify_matches_serde() {
    assert_eq!(classify("7"), NumClass::Unsigned(7));
    assert_eq!(classify("0"), NumClass::Unsigned(0));
    assert_eq!(classify("18446744073709551615"), NumClass::Unsigned(u64::MAX));
    assert_eq!(classify("-1"), NumClass::Signed(-1));
    assert_eq!(classify("-9223372036854775808"), NumClass::Signed(i64::MIN));
    assert_eq!(classify("2.5"), NumClass::Floating);
    assert_eq!(classify("1e3"), NumClass::Floating);
    assert_eq!(classify("18446744073709551616"), NumClass::Floating);
    assert_eq!(classify("NaN"), NumClass::NotNumber);
    assert_eq!(classify("bogus"), NumClass::NotNumber);
}

#[test]
fn parse_float_normalizes() {
    let f = parse_float("123.45");
    assert!(!f.nan && !f.neg && !f.zero);
    assert_eq!(f.digits, vec![1, 2, 3, 4, 5]);
    assert_eq!(f.exp, 3);
    assert_eq!(f.text, "123.45".to_string());

    let g = parse_float("0.0500");
    assert_eq!(g.digits, vec![5]);
    assert_eq!(g.exp, -1);

    let z = parse_float("0.000e5");
    assert!(z.zero);

    let n = parse_float("NaN");
    assert!(n.nan);

    let e = parse_float("1.2e2");
    assert_eq!(e.digits, vec![1, 2]);
    assert_eq!(e.exp, 3);
}

#[test]
fn float_order_is_numeric() {
    assert!(le("2.5", "10"));
    assert!(!le("10", "2.5"));
    assert!(le("-10", "2.5"));
    assert!(le("-10", "-2.5"));
    assert!(!le("-2.5", "-10"));
    assert!(le("0.0", "0.1"));
    assert!(le("-0.1", "0"));
    assert!(le("1.2e2", "121"));
    assert!(le("99", "1e2"));
    assert!(le("-1e3", "-999"));
    // numerically equal values fall back to the text
    assert!(le("1.0", "1.00"));
    assert!(!le("1.00", "1.0"));
}

#[test]
fn nan_loses_min_and_max() {
    let nan = parse_float("NaN");
    let x = parse_float("3.5");
    assert_eq!(float_min_val(&nan, &x).text, "3.5".to_string());
    assert_eq!(float_min_val(&x, &nan).text, "3.5".to_string());
    assert_eq!(float_max_val(&nan, &x).text, "3.5".to_string());
    assert_eq!(float_max_val(&x, &nan).text, "3.5".to_string());
}

#[test]
fn min_and_max_pick_ends() {
    let a = parse_float("-2.5");
    let b = parse_float("0.5");
    assert_eq!(float_min_val(&a, &b).text, "-2.5".to_string());
    assert_eq!(float_max_val(&a, &b).text, "0.5".to_string());
    assert_eq!(float_min_val(&b, &a).text, "-2.5".to_string());
    assert_eq!(float_max_val(&b, &a).text, "0.5".to_string());
}

#[test]
fn duplicate_preserves_every_field() {
    let f = parse_float("-12.5e-3");
    let g: FloatVal = f.duplicate();
    assert_eq!(f, g);
}

#[test]
fn text_order_is_lexicographic() {
    assert!(text_le("abc", "abd"));
    assert!(text_le("ab", "abc"));
    assert!(!text_le("abd", "abc"));
    assert!(text_le("", "a"));
    assert!(text_le("same", "same"));
}

#[test]
fn decimal_rendering() {
    assert_eq!(u64_to_string(0), "0".to_string());
    assert_eq!(u64_to_string(7), "7".to_string());
    assert_eq!(u64_to_string(12345), "12345".to_string());
    assert_eq!(u64_to_string(u64::MAX), "18446744073709551615".to_string());
}
