use tree_graph::decimal::{signed_text, unsigned_text};
use tree_graph::key::Key;

#[test]
fn decimal_text_of_unsigned_numbers() {
    assert_eq!(unsigned_text(0), "0");
    assert_eq!(unsigned_text(7), "7");
    assert_eq!(unsigned_text(10), "10");
    assert_eq!(unsigned_text(1203), "1203");
    assert_eq!(unsigned_text(u64::MAX), "18446744073709551615");
}

#[test]
fn decimal_text_of_signed_numbers() {
    assert_eq!(signed_text(0), "0");
    assert_eq!(signed_text(-1), "-1");
    assert_eq!(signed_text(-120), "-120");
    assert_eq!(signed_text(i64::MAX), "9223372036854775807");
    assert_eq!(signed_text(i64::MIN), "-9223372036854775808");
}

#[test]
fn labels_are_what_display_writes() {
    for n in [-1000i32, -99, -1, 0, 1, 9, 10, 99, 100, 12345, i32::MAX, i32::MIN] {
        assert_eq!(n.label(), n.to_string());
    }
    for n in [0u32, 5, 10, 4096, u32::MAX] {
        assert_eq!(n.label(), n.to_string());
    }
}

#[test]
fn keys_compare_as_numbers() {
    assert!(3i32.is_below(&4));
    assert!(!4i32.is_below(&4));
    assert!((-4i32).is_below(&-3));
    assert!(4u32.is_same(&4));
    assert!(!4u32.is_same(&5));
}

#[test]
fn every_integer_type_is_a_key() {
    assert_eq!(u8::MAX.label(), "255");
    assert_eq!(u16::MAX.label(), "65535");
    assert_eq!(u64::MAX.label(), "18446744073709551615");
    assert_eq!(usize::MAX.label(), usize::MAX.to_string());
    assert_eq!(i8::MIN.label(), "-128");
    assert_eq!(i16::MIN.label(), "-32768");
    assert_eq!(i64::MIN.label(), "-9223372036854775808");
    assert_eq!(isize::MIN.label(), isize::MIN.to_string());
    assert!(i8::MIN.is_below(&i8::MAX));
    assert!(!u8::MAX.is_below(&0));
    assert!(7u64.is_same(&7));
    assert!(!7isize.is_same(&-7));
}
