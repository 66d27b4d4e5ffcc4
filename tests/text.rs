use lotto_scout::text::{decimal_text, same_text};

#[test]
fn decimal_notation() {
    assert_eq!(decimal_text(0), "0");
    assert_eq!(decimal_text(7), "7");
    assert_eq!(decimal_text(10), "10");
    assert_eq!(decimal_text(9500), "9500");
    assert_eq!(decimal_text(usize::MAX), usize::MAX.to_string());
}

#[test]
fn text_equality() {
    assert!(same_text("thai", "thai"));
    assert!(!same_text("thai", "tha"));
    assert!(!same_text("thai", "thal"));
    assert!(same_text("", ""));
    assert!(same_text("รางวัล", "รางวัล"));
}
