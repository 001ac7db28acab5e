use bitvec::fmt::{push_decimal, push_radix};
use bitvec::order::{Lsb0, Msb0};
use bitvec::vec::BitVec;

fn bits_of(text: &str) -> Vec<bool> {
    text.chars().map(|c| c == '1').collect()
}

#[test]
fn decimal_digits() {
    for (n, want) in [(0usize, "0"), (7, "7"), (10, "10"), (99, "99"), (100, "100"), (4096, "4096")] {
        let mut text = String::from("n=");
        push_decimal(&mut text, n);
        assert_eq!(text, format!("n={}", want));
    }
    let mut text = String::new();
    push_decimal(&mut text, usize::MAX);
    assert_eq!(text, format!("{}", usize::MAX));
}

#[test]
fn radix_digits_take_bits_from_the_front() {
    let bits = bits_of("1011001110");
    let mut bin = String::new();
    push_radix(&mut bin, &bits, 1, false);
    assert_eq!(bin, "1011001110");
    let mut oct = String::new();
    push_radix(&mut oct, &bits, 3, false);
    assert_eq!(oct, "5470");
    let mut hex = String::new();
    push_radix(&mut hex, &bits, 4, false);
    assert_eq!(hex, "b32");
    let mut upper = String::from("0x");
    push_radix(&mut upper, &bits_of("101111111100"), 4, true);
    assert_eq!(upper, "0xBFC");
    let mut none = String::new();
    push_radix(&mut none, &[], 4, true);
    assert_eq!(none, "");
}

#[test]
fn display_text_is_the_bits_in_order() {
    let v = BitVec::<Msb0, u16>::from_bits(&bits_of("0111010010"));
    assert_eq!(v.display_text(), "0111010010");
    assert_eq!(v.radix_text(4, false), "742");
    assert_eq!(v.radix_text(3, false), "3510");
    assert_eq!(BitVec::<Lsb0, u8>::new().display_text(), "");
}

#[test]
fn pointer_text_names_head_bits_and_capacity() {
    let owner = BitVec::<Lsb0, u8>::from_bits(&bits_of("0101101110001"));
    assert_eq!(owner.pointer_text(), "BitVec { head: 0, bits: 13, capacity: 16 }");
    let sub = owner.as_bitslice().sub_range(5, 6).unwrap();
    let v = BitVec::from_bitslice(&sub, owner.as_slice());
    assert_eq!(v.pointer_text(), "BitVec { head: 5, bits: 6, capacity: 11 }");
}

#[test]
fn debug_text_has_two_forms() {
    let v = BitVec::<Lsb0, u8>::from_bits(&bits_of("10110"));
    assert_eq!(v.debug_text(false), "10110");
    assert_eq!(v.debug_text(true), "BitVec { head: 0, bits: 5, capacity: 8 } 10110");
}
