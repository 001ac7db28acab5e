use bitvec::boxed::BitBox;
use bitvec::error::Error;
use bitvec::order::{Lsb0, Msb0};
use bitvec::vec::BitVec;
use std::cmp::Ordering;

fn bits_of(text: &str) -> Vec<bool> {
    text.chars().map(|c| c == '1').collect()
}

fn lsb_u8(text: &str) -> BitVec<Lsb0, u8> {
    BitVec::<Lsb0, u8>::from_bits(&bits_of(text))
}

fn read_all<O: bitvec::order::BitOrder, T: bitvec::store::BitStore>(v: &BitVec<O, T>) -> Vec<bool> {
    v.as_bitslice().to_vec(v.as_slice())
}

#[test]
fn new_vector_is_empty_and_unallocated() {
    let v = BitVec::<Lsb0, u8>::new();
    assert_eq!(v.len(), 0);
    assert!(v.is_empty());
    assert_eq!(v.capacity(), 0);
    assert_eq!(v.storage_len(), 0);
    assert_eq!(v.first_index(), 0);
}

#[test]
fn default_vector_is_empty() {
    let v: BitVec<Msb0, u32> = Default::default();
    assert_eq!(v.len(), 0);
    assert_eq!(v.storage_len(), 0);
}

#[test]
fn push_then_read_back() {
    let mut v = BitVec::<Lsb0, u8>::new();
    v.push(true);
    v.push(false);
    v.push(true);
    v.push(true);
    assert_eq!(v.get(2), Ok(true));
    assert_eq!(v.len(), 4);
    assert_eq!(v.get(0), Ok(true));
    assert_eq!(v.get(1), Ok(false));
    assert_eq!(v.get(3), Ok(true));
    assert_eq!(v.get(4), Err(Error::IndexOutOfRange));
}

#[test]
fn push_places_bits_by_order() {
    let mut l = BitVec::<Lsb0, u8>::new();
    let mut m = BitVec::<Msb0, u8>::new();
    for b in bits_of("1011") {
        l.push(b);
        m.push(b);
    }
    assert_eq!(l.as_slice(), &[0b0000_1101u8][..]);
    assert_eq!(m.as_slice(), &[0b1011_0000u8][..]);
    assert_eq!(read_all(&l), read_all(&m));
}

#[test]
fn sub_range_of_ten_bits() {
    let v = lsb_u8("0111010010");
    let sub = v.as_bitslice().sub_range(3, 4).unwrap();
    assert_eq!(sub.to_vec(v.as_slice()), bits_of("1010"));
    assert_eq!(sub.len(), 4);
}

#[test]
fn sub_range_past_the_end_is_refused() {
    let v = lsb_u8("0111010010");
    assert_eq!(v.as_bitslice().sub_range(7, 4).err(), Some(Error::OutOfBounds));
    assert_eq!(v.as_bitslice().sub_range(11, 0).err(), Some(Error::OutOfBounds));
    assert!(v.as_bitslice().sub_range(10, 0).is_ok());
    assert!(v.as_bitslice().sub_range(0, 10).is_ok());
}

#[test]
fn sub_range_crosses_element_boundary() {
    let v = lsb_u8("0111010010110010111");
    let sub = v.as_bitslice().sub_range(6, 9).unwrap();
    assert_eq!(sub.as_bitptr().first(), 6);
    assert_eq!(sub.as_bitptr().element(), 0);
    assert_eq!(sub.as_bitptr().elements(), 2);
    assert_eq!(sub.to_vec(v.as_slice()), bits_of("001011001"));
    let next = v.as_bitslice().sub_range(9, 5).unwrap();
    assert_eq!(next.as_bitptr().first(), 1);
    assert_eq!(next.as_bitptr().element(), 1);
    assert_eq!(next.as_bitptr().base_offset(), 1);
}

#[test]
fn chained_sub_ranges_compose() {
    let text = "011101001011001011101100";
    let mut v = BitVec::<Msb0, u16>::new();
    v.extend(&bits_of(text));
    let whole = v.as_bitslice();
    let a = whole.sub_range(5, 15).unwrap();
    let ac = a.sub_range(4, 7).unwrap();
    let once = whole.sub_range(9, 7).unwrap();
    assert_eq!(ac.as_bitptr().first(), once.as_bitptr().first());
    assert_eq!(ac.as_bitptr().base_offset(), once.as_bitptr().base_offset());
    assert_eq!(ac.len(), once.len());
    assert_eq!(ac.to_vec(v.as_slice()), bits_of(&text[9..16]));
}

#[test]
fn growth_keeps_every_pushed_bit() {
    let mut v = BitVec::<Lsb0, u8>::new();
    let mut want = Vec::new();
    for n in 0..10_000usize {
        assert_eq!(v.len(), n);
        let b = (n * n + n / 3) % 5 < 2;
        v.push(b);
        want.push(b);
    }
    assert_eq!(read_all(&v), want);
    let mut w = BitVec::<Msb0, u64>::new();
    for b in want.iter() {
        w.push(*b);
    }
    assert_eq!(read_all(&w), want);
}

#[test]
fn growth_doubles_the_buffer() {
    let mut v = BitVec::<Lsb0, u8>::new();
    for _ in 0..8 {
        v.push(true);
    }
    assert_eq!(v.storage_len(), 1);
    assert_eq!(v.capacity(), 8);
    v.push(false);
    assert_eq!(v.storage_len(), 2);
    for _ in 0..7 {
        v.push(true);
    }
    assert_eq!(v.storage_len(), 2);
    v.push(true);
    assert_eq!(v.storage_len(), 4);
    assert_eq!(v.capacity(), 32);
    assert_eq!(v.len(), 17);
}

#[test]
fn with_capacity_rounds_up_to_elements() {
    let v = BitVec::<Lsb0, u8>::with_capacity(20);
    assert_eq!(v.len(), 0);
    assert_eq!(v.storage_len(), 3);
    assert_eq!(v.capacity(), 24);
    let w = BitVec::<Lsb0, u32>::with_capacity(33);
    assert_eq!(w.storage_len(), 2);
    assert_eq!(w.capacity(), 64);
    let z = BitVec::<Msb0, u64>::with_capacity(0);
    assert_eq!(z.storage_len(), 0);
}

#[test]
fn reserve_keeps_bits_and_makes_room() {
    let mut v = lsb_u8("101");
    v.reserve(100);
    assert!(v.capacity() >= 103);
    assert_eq!(v.storage_len(), 13);
    assert_eq!(read_all(&v), bits_of("101"));
    let before = v.storage_len();
    v.reserve(5);
    assert_eq!(v.storage_len(), before);
}

#[test]
fn pop_returns_last_bit() {
    let mut v = lsb_u8("10");
    assert_eq!(v.pop(), Some(false));
    assert_eq!(v.pop(), Some(true));
    assert_eq!(v.pop(), None);
    assert_eq!(v.len(), 0);
    assert_eq!(v.storage_len(), 1);
}

#[test]
fn insert_shifts_up() {
    let mut v = lsb_u8("1100110011");
    assert_eq!(v.insert(3, true), Ok(()));
    assert_eq!(read_all(&v), bits_of("11010110011"));
    assert_eq!(v.insert(0, false), Ok(()));
    assert_eq!(read_all(&v), bits_of("011010110011"));
    assert_eq!(v.insert(12, true), Ok(()));
    assert_eq!(read_all(&v), bits_of("0110101100111"));
    assert_eq!(v.insert(15, true), Err(Error::IndexOutOfRange));
    assert_eq!(read_all(&v), bits_of("0110101100111"));
}

#[test]
fn remove_shifts_down() {
    let mut v = lsb_u8("1100110011");
    assert_eq!(v.remove(2), Ok(false));
    assert_eq!(read_all(&v), bits_of("110110011"));
    assert_eq!(v.remove(0), Ok(true));
    assert_eq!(read_all(&v), bits_of("10110011"));
    assert_eq!(v.remove(7), Ok(true));
    assert_eq!(read_all(&v), bits_of("1011001"));
    assert_eq!(v.remove(7), Err(Error::IndexOutOfRange));
    assert_eq!(read_all(&v), bits_of("1011001"));
}

#[test]
fn set_changes_one_bit() {
    let mut v = lsb_u8("0000000000");
    assert_eq!(v.set(9, true), Ok(()));
    assert_eq!(v.set(0, true), Ok(()));
    assert_eq!(read_all(&v), bits_of("1000000001"));
    assert_eq!(v.set(10, true), Err(Error::IndexOutOfRange));
    assert_eq!(read_all(&v), bits_of("1000000001"));
}

#[test]
fn truncate_and_clear_keep_capacity() {
    let mut v = lsb_u8("110011001100110011");
    let room = v.storage_len();
    v.truncate(30);
    assert_eq!(v.len(), 18);
    v.truncate(5);
    assert_eq!(read_all(&v), bits_of("11001"));
    assert_eq!(v.storage_len(), room);
    v.clear();
    assert_eq!(v.len(), 0);
    assert_eq!(v.storage_len(), room);
    assert_eq!(v.capacity(), room * 8);
}

#[test]
fn extend_appends_in_order() {
    let mut v = lsb_u8("101");
    v.extend(&bits_of("0011"));
    v.extend(&[]);
    assert_eq!(read_all(&v), bits_of("1010011"));
}

#[test]
fn round_trip_through_a_view() {
    for text in ["", "1", "0", "10110", "0111010010", "1111111100000000101010101"] {
        let s = bits_of(text);
        let owner = BitVec::<Msb0, u16>::from_bits(&s);
        assert_eq!(owner.to_vec(), s);
        let copy = BitVec::from_bitslice(owner.as_bitslice(), owner.as_slice());
        assert_eq!(copy.iter().collect(), s);
    }
}

#[test]
fn from_bitslice_keeps_head_and_clears_dead_bits() {
    let mut owner = BitVec::<Lsb0, u8>::new();
    owner.extend(&bits_of("1111111111111111"));
    let sub = owner.as_bitslice().sub_range(3, 7).unwrap();
    let copy = BitVec::from_bitslice(&sub, owner.as_slice());
    assert_eq!(copy.first_index(), 3);
    assert_eq!(copy.len(), 7);
    assert_eq!(copy.storage_len(), 2);
    assert_eq!(copy.as_slice(), &[0b1111_1000u8, 0b0000_0011u8][..]);
    assert_eq!(copy.capacity(), 13);
}

#[test]
fn clone_is_equal_and_separate() {
    let v = lsb_u8("0111010010");
    let mut c = v.clone();
    assert!(c == v);
    assert_eq!(read_all(&c), read_all(&v));
    assert_eq!(c.storage_len(), 2);
    c.set(0, true).unwrap();
    assert!(c != v);
    assert_eq!(v.get(0), Ok(false));
}

#[test]
fn clone_from_into_larger_capacity() {
    let src = lsb_u8("101");
    let mut dst = BitVec::<Lsb0, u8>::new();
    for n in 0..100usize {
        dst.push(n % 3 == 0);
    }
    let room = dst.storage_len();
    let cap = dst.capacity();
    dst.clone_from(&src);
    assert_eq!(dst.len(), 3);
    assert_eq!(read_all(&dst), bits_of("101"));
    assert_eq!(dst.storage_len(), room);
    assert_eq!(dst.capacity(), cap);
    assert!(dst == src);
}

#[test]
fn clone_from_grows_a_small_buffer() {
    let mut src = BitVec::<Msb0, u8>::new();
    for n in 0..50usize {
        src.push(n % 7 < 3);
    }
    let mut dst = BitVec::<Msb0, u8>::new();
    dst.push(true);
    dst.clone_from(&src);
    assert_eq!(read_all(&dst), read_all(&src));
    assert_eq!(dst.storage_len(), 7);
}

#[test]
fn clone_from_takes_over_the_head() {
    let owner = lsb_u8("0101101110001");
    let sub = owner.as_bitslice().sub_range(5, 6).unwrap();
    let src = BitVec::from_bitslice(&sub, owner.as_slice());
    assert_eq!(src.first_index(), 5);
    let mut dst = lsb_u8("111111111111111111111111");
    assert_eq!(dst.first_index(), 0);
    dst.clone_from(&src);
    assert_eq!(dst.first_index(), 5);
    assert_eq!(read_all(&dst), bits_of("011100"));
    assert_eq!(dst.storage_len(), 3);
    assert_eq!(dst.capacity(), 19);
}

#[test]
fn equality_ignores_head_and_buffer() {
    let owner = lsb_u8("0001011100");
    let sub = owner.as_bitslice().sub_range(3, 5).unwrap();
    let a = BitVec::from_bitslice(&sub, owner.as_slice());
    let b = lsb_u8("10111");
    assert_eq!(a.first_index(), 3);
    assert!(a == b);
    assert!(b.eq_bitslice(&sub, owner.as_slice()));
    assert!(!(a == lsb_u8("10110")));
    assert!(!(a == lsb_u8("101110")));
}

#[test]
fn ordering_is_lexicographic() {
    let a = lsb_u8("0101");
    assert_eq!(a.cmp(&lsb_u8("0101")), Ordering::Equal);
    assert_eq!(a.cmp(&lsb_u8("0110")), Ordering::Less);
    assert_eq!(a.cmp(&lsb_u8("0100")), Ordering::Greater);
    assert_eq!(a.cmp(&lsb_u8("01011")), Ordering::Less);
    assert_eq!(a.cmp(&lsb_u8("010")), Ordering::Greater);
    assert_eq!(a.cmp(&lsb_u8("1")), Ordering::Less);
    assert_eq!(lsb_u8("").cmp(&lsb_u8("")), Ordering::Equal);
    assert_eq!(a.partial_cmp(&lsb_u8("0110")), Some(Ordering::Less));
    assert!(a < lsb_u8("0110"));
    let whole = lsb_u8("110100");
    let sub = whole.as_bitslice().sub_range(2, 4).unwrap();
    assert_eq!(a.cmp_bitslice(&sub, whole.as_slice()), Ordering::Greater);
}

#[test]
fn boxed_round_trip() {
    let mut v = lsb_u8("011101001");
    v.reserve(200);
    let b: BitBox<Lsb0, u8> = v.into_boxed_bitslice();
    assert_eq!(b.len(), 9);
    assert_eq!(b.as_slice().len(), 2);
    assert_eq!(b.get(1), Ok(true));
    assert_eq!(b.get(9), Err(Error::IndexOutOfRange));
    let back: BitVec<Lsb0, u8> = BitVec::from(b);
    assert_eq!(read_all(&back), bits_of("011101001"));
    assert_eq!(back.storage_len(), 2);
    let again = BitBox::from_bitslice(back.as_bitslice(), back.as_slice()).into_bitvec();
    assert!(again == back);
}

#[test]
fn aliased_views_do_not_disturb_each_other() {
    let mut v = lsb_u8("00000000");
    let low = v.as_bitslice().sub_range(0, 3).unwrap();
    let high = v.as_bitslice().sub_range(3, 5).unwrap();
    for round in 0..4usize {
        for i in 0..5usize {
            if i < 3 {
                v.set_aliased(&low, i, (i + round) % 2 == 0).unwrap();
            }
            v.set_aliased(&high, i, true).unwrap();
        }
    }
    assert_eq!(high.to_vec(v.as_slice()), bits_of("11111"));
    assert_eq!(low.to_vec(v.as_slice()), bits_of("010"));
    assert_eq!(v.set_aliased(&low, 3, true), Err(Error::IndexOutOfRange));
    let other = lsb_u8("000000000000000000000000");
    let far = other.as_bitslice().sub_range(16, 8).unwrap();
    assert_eq!(v.set_aliased(&far, 0, true), Err(Error::OutOfBounds));
    assert_eq!(read_all(&v), bits_of("01011111"));
}

#[test]
fn iteration_is_restartable() {
    let v = lsb_u8("10110");
    let mut it = v.iter();
    assert_eq!(it.next(), Some(true));
    assert_eq!(it.next(), Some(false));
    assert_eq!(it.collect(), bits_of("110"));
    assert_eq!(v.iter().collect(), bits_of("10110"));
    let none = lsb_u8("");
    let mut done = none.iter();
    assert_eq!(done.next(), None);
    assert_eq!(done.next(), None);
}

#[test]
fn usize_elements_hold_a_word_each() {
    let mut v = BitVec::<Msb0, usize>::new();
    let width = usize::BITS as usize;
    for n in 0..(width + 1) {
        v.push(n % 2 == 1);
    }
    assert_eq!(v.storage_len(), 2);
    assert_eq!(v.get(width), Ok(width % 2 == 1));
    assert_eq!(v.get(width - 1), Ok(true));
}

#[test]
fn fill_sets_every_live_bit() {
    let owner = lsb_u8("0000000000000");
    let sub = owner.as_bitslice().sub_range(3, 7).unwrap();
    let mut v = sub.to_bitvec(owner.as_slice());
    v.fill(true);
    assert_eq!(v.to_vec(), bits_of("1111111"));
    assert_eq!(v.as_slice(), &[0b1111_1000u8, 0b0000_0011][..]);
    v.fill(false);
    assert_eq!(v.as_slice(), &[0u8, 0][..]);
}

#[test]
fn to_bitvec_copies_a_view() {
    let owner = BitVec::<Msb0, u32>::from_bits(&bits_of("110010111000111100001111100000"));
    let sub = owner.as_bitslice().sub_range(4, 20).unwrap();
    let copy = sub.to_bitvec(owner.as_slice());
    assert_eq!(copy.to_vec(), bits_of("10111000111100001111"));
    assert_eq!(copy.first_index(), 4);
    assert_eq!(copy.storage_len(), 1);
    assert!(copy.eq_bitslice(&sub, owner.as_slice()));
}

#[test]
fn extend_makes_room_once() {
    let mut v = lsb_u8("1");
    v.extend(&bits_of("0000000000000000000000000000000000000000"));
    assert_eq!(v.len(), 41);
    assert_eq!(v.storage_len(), 6);
    let mut w = lsb_u8("111111111");
    w.extend(&bits_of("0000000000"));
    assert_eq!(w.storage_len(), 4);
}
