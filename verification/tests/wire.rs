use led_visualizer::text::{push_decimal, same_text};
use led_visualizer::wire::{push_all, push_le16, push_le32, u16_from_le, u16_to_le, u32_from_le, u32_to_le};

#[test]
fn little_endian_round_trips() {
    assert_eq!(u16_to_le(0x1234), [0x34, 0x12]);
    assert_eq!(u32_to_le(0xdeadbeef), [0xef, 0xbe, 0xad, 0xde]);
    assert_eq!(u16_from_le(0x34, 0x12), 0x1234);
    assert_eq!(u32_from_le(0xef, 0xbe, 0xad, 0xde), 0xdeadbeef);
    let mut v = vec![1];
    push_le16(&mut v, 0xabcd);
    push_le32(&mut v, 1);
    push_all(&mut v, &[7, 7]);
    assert_eq!(v, vec![1, 0xcd, 0xab, 1, 0, 0, 0, 7, 7]);
}

#[test]
fn text_comparison() {
    assert!(same_text("fire", "fire"));
    assert!(!same_text("fire", "fir"));
    assert!(!same_text("fire", "Fire"));
    assert!(same_text("", ""));
    assert!(same_text("océan", "océan"));
}

#[test]
fn decimal_writing() {
    let mut s = String::from("n=");
    push_decimal(&mut s, 0);
    assert_eq!(s, "n=0");
    push_decimal(&mut s, 1234567890);
    assert_eq!(s, "n=01234567890");
    let mut t = String::new();
    push_decimal(&mut t, usize::MAX);
    assert_eq!(t, usize::MAX.to_string());
}
