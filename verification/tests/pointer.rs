use bitvec::domain::Domain;
use bitvec::error::Error;
use bitvec::pointer::BitPtr;

#[test]
fn new_accepts_an_aligned_region() {
    let p = BitPtr::<u32>::new(8, 5, 100).unwrap();
    assert_eq!(p.base_offset(), 8);
    assert_eq!(p.element(), 2);
    assert_eq!(p.first(), 5);
    assert_eq!(p.len(), 100);
    assert_eq!(p.elements(), 4);
}

#[test]
fn new_packs_every_head() {
    for head in 0..64u8 {
        let p = BitPtr::<u64>::new(24, head, 1000 + head as usize).unwrap();
        assert_eq!(p.first(), head);
        assert_eq!(p.base_offset(), 24);
        assert_eq!(p.element(), 3);
        assert_eq!(p.len(), 1000 + head as usize);
    }
    for head in 0..8u8 {
        let p = BitPtr::<u8>::new(7, head, 3).unwrap();
        assert_eq!(p.first(), head);
        assert_eq!(p.base_offset(), 7);
        assert_eq!(p.element(), 7);
    }
}

#[test]
fn new_refuses_a_misaligned_base() {
    assert_eq!(BitPtr::<u16>::new(3, 0, 8).err(), Some(Error::InvalidPointer));
    assert_eq!(BitPtr::<u32>::new(6, 0, 8).err(), Some(Error::InvalidPointer));
    assert_eq!(BitPtr::<u64>::new(4, 0, 8).err(), Some(Error::InvalidPointer));
    assert!(BitPtr::<u8>::new(3, 0, 8).is_ok());
    assert!(BitPtr::<u16>::new(4, 0, 8).is_ok());
}

#[test]
fn new_refuses_a_head_outside_the_element() {
    assert_eq!(BitPtr::<u8>::new(0, 8, 1).err(), Some(Error::InvalidPointer));
    assert_eq!(BitPtr::<u16>::new(0, 16, 1).err(), Some(Error::InvalidPointer));
    assert_eq!(BitPtr::<u64>::new(0, 64, 0).err(), Some(Error::InvalidPointer));
    assert!(BitPtr::<u8>::new(0, 7, 1).is_ok());
    assert!(BitPtr::<u64>::new(0, 63, 0).is_ok());
}

#[test]
fn new_refuses_what_the_address_space_cannot_hold() {
    let most = usize::MAX / 8;
    assert!(BitPtr::<u8>::new(0, 0, most).is_ok());
    assert_eq!(BitPtr::<u8>::new(0, 0, most + 1).err(), Some(Error::InvalidPointer));
    let top = usize::MAX - 7;
    assert!(BitPtr::<u64>::new(top, 0, 0).is_ok());
    assert_eq!(BitPtr::<u64>::new(top, 0, 1).err(), Some(Error::InvalidPointer));
    assert_eq!(BitPtr::<u8>::new(usize::MAX, 0, 8).err(), Some(Error::InvalidPointer));
    assert_eq!(BitPtr::<u8>::new(usize::MAX - 1, 7, 2).err(), Some(Error::InvalidPointer));
    assert!(BitPtr::<u8>::new(usize::MAX - 1, 7, 1).is_ok());
}

#[test]
fn empty_pointer_names_nothing() {
    let p = BitPtr::<u16>::empty();
    assert_eq!(p.len(), 0);
    assert_eq!(p.first(), 0);
    assert_eq!(p.base_offset(), 0);
    assert_eq!(p.elements(), 0);
}

#[test]
fn sub_range_folds_the_carry_into_the_base() {
    let p = BitPtr::<u16>::new(4, 10, 60).unwrap();
    let s = p.sub_range(7, 20).unwrap();
    assert_eq!(s.first(), 1);
    assert_eq!(s.base_offset(), 6);
    assert_eq!(s.element(), 3);
    assert_eq!(s.len(), 20);
    let t = p.sub_range(6, 0).unwrap();
    assert_eq!(t.first(), 0);
    assert_eq!(t.element(), 3);
    let u = p.sub_range(5, 3).unwrap();
    assert_eq!(u.first(), 15);
    assert_eq!(u.element(), 2);
    assert_eq!(u.elements(), 2);
    assert_eq!(p.sub_range(41, 20).err(), Some(Error::OutOfBounds));
    assert_eq!(p.sub_range(61, 0).err(), Some(Error::OutOfBounds));
    assert_eq!(p.sub_range(usize::MAX, 2).err(), Some(Error::OutOfBounds));
    assert!(p.sub_range(60, 0).is_ok());
}

#[test]
fn locate_walks_across_elements() {
    let p = BitPtr::<u8>::new(2, 6, 12).unwrap();
    assert_eq!(p.locate(0), (2, 6));
    assert_eq!(p.locate(1), (2, 7));
    assert_eq!(p.locate(2), (3, 0));
    assert_eq!(p.locate(9), (3, 7));
    assert_eq!(p.locate(11), (4, 1));
}

#[test]
fn set_head_and_set_len_keep_the_rest() {
    let mut p = BitPtr::<u32>::new(12, 3, 40).unwrap();
    p.set_head(31);
    assert_eq!(p.first(), 31);
    assert_eq!(p.base_offset(), 12);
    assert_eq!(p.len(), 40);
    p.set_len(7);
    assert_eq!(p.first(), 31);
    assert_eq!(p.base_offset(), 12);
    assert_eq!(p.len(), 7);
    p.set_head(0);
    assert_eq!(p.first(), 0);
    assert_eq!(p.len(), 7);
}

fn parts(d: &Domain) -> (Option<(usize, u8, u8)>, usize, usize, Option<(usize, u8, u8)>) {
    (
        d.head.map(|p| (p.elem, p.from, p.upto)),
        d.body,
        d.count,
        d.tail.map(|p| (p.elem, p.from, p.upto)),
    )
}

#[test]
fn domain_of_an_empty_region() {
    let p = BitPtr::<u8>::new(5, 3, 0).unwrap();
    assert_eq!(parts(&p.domain()), (None, 5, 0, None));
}

#[test]
fn domain_inside_one_element() {
    let p = BitPtr::<u8>::new(1, 2, 4).unwrap();
    assert_eq!(parts(&p.domain()), (Some((1, 2, 6)), 2, 0, None));
    let q = BitPtr::<u8>::new(1, 0, 5).unwrap();
    assert_eq!(parts(&q.domain()), (Some((1, 0, 5)), 2, 0, None));
    let r = BitPtr::<u8>::new(1, 3, 5).unwrap();
    assert_eq!(parts(&r.domain()), (Some((1, 3, 8)), 2, 0, None));
}

#[test]
fn domain_of_whole_elements() {
    let p = BitPtr::<u16>::new(4, 0, 48).unwrap();
    assert_eq!(parts(&p.domain()), (None, 2, 3, None));
    let q = BitPtr::<u16>::new(4, 0, 16).unwrap();
    assert_eq!(parts(&q.domain()), (None, 2, 1, None));
}

#[test]
fn domain_with_head_body_and_tail() {
    let p = BitPtr::<u8>::new(0, 3, 30).unwrap();
    assert_eq!(parts(&p.domain()), (Some((0, 3, 8)), 1, 3, Some((4, 0, 1))));
    let q = BitPtr::<u8>::new(0, 0, 19).unwrap();
    assert_eq!(parts(&q.domain()), (None, 0, 2, Some((2, 0, 3))));
    let r = BitPtr::<u8>::new(0, 5, 19).unwrap();
    assert_eq!(parts(&r.domain()), (Some((0, 5, 8)), 1, 2, None));
    let s = BitPtr::<u8>::new(0, 7, 2).unwrap();
    assert_eq!(parts(&s.domain()), (Some((0, 7, 8)), 1, 0, Some((1, 0, 1))));
}
