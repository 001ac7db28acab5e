use bitvec::compare::Lex;
use bitvec::error::Error;
use bitvec::order::{Lsb0, Msb0};
use bitvec::pointer::BitPtr;
use bitvec::slice::BitSlice;

fn bits_of(text: &str) -> Vec<bool> {
    text.chars().map(|c| c == '1').collect()
}

fn view<O: bitvec::order::BitOrder, T: bitvec::store::BitStore>(
    base: usize,
    head: u8,
    bits: usize,
) -> BitSlice<O, T> {
    BitSlice::from_bitptr(BitPtr::new(base, head, bits).unwrap())
}

#[test]
fn get_reads_through_the_order() {
    let store = [0b0000_0101u8, 0b1000_0000];
    let l = view::<Lsb0, u8>(0, 0, 16);
    assert_eq!(l.get(&store, 0), Ok(true));
    assert_eq!(l.get(&store, 1), Ok(false));
    assert_eq!(l.get(&store, 2), Ok(true));
    assert_eq!(l.get(&store, 15), Ok(true));
    assert_eq!(l.get(&store, 16), Err(Error::IndexOutOfRange));
    let m = view::<Msb0, u8>(0, 0, 16);
    assert_eq!(m.get(&store, 5), Ok(true));
    assert_eq!(m.get(&store, 7), Ok(true));
    assert_eq!(m.get(&store, 8), Ok(true));
    assert_eq!(m.get(&store, 0), Ok(false));
}

#[test]
fn set_touches_one_bit_of_the_buffer() {
    let mut store = [0u16, 0xffff, 0];
    let v = view::<Lsb0, u16>(2, 14, 6);
    assert_eq!(v.set(&mut store, 0, false), Ok(()));
    assert_eq!(store, [0, 0xbfff, 0]);
    assert_eq!(v.set(&mut store, 2, true), Ok(()));
    assert_eq!(store, [0, 0xbfff, 1]);
    assert_eq!(v.set(&mut store, 5, true), Ok(()));
    assert_eq!(store, [0, 0xbfff, 0b1001]);
    assert_eq!(v.set(&mut store, 6, true), Err(Error::IndexOutOfRange));
    assert_eq!(store, [0, 0xbfff, 0b1001]);
    assert_eq!(v.to_vec(&store), bits_of("011001"));
}

#[test]
fn fill_keeps_to_the_view() {
    let mut store = [0u8; 5];
    let v = view::<Lsb0, u8>(0, 3, 30);
    v.fill(&mut store, true);
    assert_eq!(store, [0b1111_1000, 0xff, 0xff, 0xff, 0b0000_0001]);
    let inner = v.sub_range(2, 9).unwrap();
    inner.fill(&mut store, false);
    assert_eq!(store, [0b0001_1000, 0b1100_0000, 0xff, 0xff, 0b0000_0001]);
    let m = view::<Msb0, u8>(2, 6, 5);
    m.fill(&mut store, false);
    assert_eq!(store, [0b0001_1000, 0b1100_0000, 0b1111_1100, 0b0001_1111, 0b0000_0001]);
    let none = view::<Lsb0, u8>(4, 1, 0);
    none.fill(&mut store, true);
    assert_eq!(store[4], 1);
}

#[test]
fn fill_inside_one_element() {
    let mut store = [0xffff_ffffu32];
    let v = view::<Msb0, u32>(0, 4, 8);
    v.fill(&mut store, false);
    assert_eq!(store, [0xf00f_ffff]);
    let w = view::<Lsb0, u32>(0, 0, 32);
    w.fill(&mut store, false);
    assert_eq!(store, [0]);
}

#[test]
fn copy_between_aligned_views() {
    let src = [0b1010_1010u8, 0b1100_1100, 0b1111_0000, 0b0101_0100];
    let mut dst = [0xffu8, 0, 0xff, 0, 0xff];
    let from = view::<Lsb0, u8>(0, 5, 20);
    let to = view::<Lsb0, u8>(1, 5, 20);
    to.copy_from(&mut dst, &from, &src);
    assert_eq!(to.to_vec(&dst), from.to_vec(&src));
    assert_eq!(dst, [0xff, 0b1010_0000, 0b1100_1100, 0b1111_0000, 0xfe]);
}

#[test]
fn copy_between_shifted_views() {
    let src = [0b1010_1010u8, 0b1100_1100, 0b1111_0000];
    let mut dst = [0u8, 0, 0xff, 0xff];
    let from = view::<Msb0, u8>(0, 2, 17);
    let to = view::<Msb0, u8>(1, 7, 17);
    let before = dst[0];
    to.copy_from(&mut dst, &from, &src);
    assert_eq!(to.to_vec(&dst), from.to_vec(&src));
    assert_eq!(dst[0], before);
    assert_eq!(dst[1] & 0b1111_1110, 0);
}

#[test]
fn equality_of_views() {
    let a = [0b1011_0110u8, 0b0000_0101];
    let b = [0xffu8, 0b1011_0111, 0b1111_0101];
    let x = view::<Lsb0, u8>(0, 1, 10);
    let y = view::<Lsb0, u8>(1, 1, 10);
    assert!(x.equals(&a, &y, &b));
    let c = [0xffu8, 0b1011_0111, 0b1111_0001];
    assert!(!x.equals(&a, &y, &c));
    let short = view::<Lsb0, u8>(1, 1, 9);
    assert!(!x.equals(&a, &short, &b));
    let d = [0b0110_1100u8, 0b0000_1011];
    let shifted = view::<Lsb0, u8>(0, 2, 10);
    assert!(x.equals(&a, &shifted, &d));
    let e = [0b0110_1100u8, 0b0000_0011];
    assert!(!x.equals(&a, &shifted, &e));
    let whole_a = [1u16, 2, 3];
    let whole_b = [1u16, 2, 3];
    let w = view::<Msb0, u16>(0, 0, 48);
    assert!(w.equals(&whole_a, &w, &whole_b));
    let whole_c = [1u16, 6, 3];
    assert!(!w.equals(&whole_a, &w, &whole_c));
}

#[test]
fn order_of_views() {
    let a = [0b0000_1010u8];
    let b = [0b0000_0110u8];
    let x = view::<Lsb0, u8>(0, 0, 4);
    assert!(x.compare(&a, &x, &a) == Lex::Equal);
    assert!(x.compare(&a, &x, &b) == Lex::Less);
    assert!(x.compare(&b, &x, &a) == Lex::Greater);
    let prefix = view::<Lsb0, u8>(0, 0, 3);
    assert!(prefix.compare(&a, &x, &a) == Lex::Less);
    assert!(x.compare(&a, &prefix, &a) == Lex::Greater);
    let none = view::<Lsb0, u8>(0, 0, 0);
    assert!(none.compare(&a, &none, &b) == Lex::Equal);
    assert!(none.compare(&a, &x, &b) == Lex::Less);
}

#[test]
fn iteration_over_a_view() {
    let store = [0b0100_1110u8, 0b0000_0001];
    let v = view::<Lsb0, u8>(0, 1, 9);
    let mut it = v.iter(&store);
    let mut seen = Vec::new();
    while let Some(b) = it.next() {
        seen.push(b);
    }
    assert_eq!(seen, bits_of("111001010"));
    assert_eq!(v.iter(&store).collect(), seen);
    assert_eq!(v.to_vec(&store), seen);
    assert!(!v.is_empty());
    assert!(view::<Lsb0, u8>(0, 1, 0).is_empty());
}
