use shades::config::is_truthy;

#[test]
fn truthy_values_are_recognised() {
    assert!(is_truthy("1"));
    assert!(is_truthy("y"));
    assert!(is_truthy("yes"));
    assert!(is_truthy("true"));
}

#[test]
fn truthiness_ignores_ascii_case() {
    assert!(is_truthy("Y"));
    assert!(is_truthy("YES"));
    assert!(is_truthy("Yes"));
    assert!(is_truthy("TRUE"));
    assert!(is_truthy("TrUe"));
}

#[test]
fn other_values_are_not_truthy() {
    assert!(!is_truthy(""));
    assert!(!is_truthy("0"));
    assert!(!is_truthy("no"));
    assert!(!is_truthy("false"));
    assert!(!is_truthy("yess"));
    assert!(!is_truthy("truee"));
    assert!(!is_truthy(" true"));
    assert!(!is_truthy("on"));
}
