use xi_editor::text::{pad_left_to, push_decimal};

#[test]
fn decimal_numbers() {
    let mut s = String::from("n=");
    push_decimal(&mut s, 0);
    assert_eq!(s, "n=0");
    let mut s = String::new();
    push_decimal(&mut s, 1_234_567_890);
    assert_eq!(s, "1234567890");
    let mut s = String::new();
    push_decimal(&mut s, u64::MAX);
    assert_eq!(s, u64::MAX.to_string());
}

#[test]
fn padding() {
    assert_eq!(pad_left_to(&"ab".to_string(), 5), "   ab");
    assert_eq!(pad_left_to(&"abcdef".to_string(), 5), "abcdef");
    assert_eq!(pad_left_to(&"5µs".to_string(), 5), "  5µs");
}
