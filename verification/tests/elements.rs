use bitvec::access::{fetch_keep, fetch_set, read_bit, write_bit, Access};
use bitvec::order::{verify_order, BitOrder, Lsb0, Msb0};
use bitvec::store::{zero, BitStore};

#[test]
fn widths_of_the_element_types() {
    assert_eq!(<u8 as BitStore>::bits(), 8);
    assert_eq!(<u16 as BitStore>::bits(), 16);
    assert_eq!(<u32 as BitStore>::bits(), 32);
    assert_eq!(<u64 as BitStore>::bits(), 64);
    assert_eq!(<usize as BitStore>::bits() as u32, usize::BITS);
    assert_eq!(<u8 as BitStore>::bytes(), 1);
    assert_eq!(<u16 as BitStore>::bytes(), 2);
    assert_eq!(<u32 as BitStore>::bytes(), 4);
    assert_eq!(<u64 as BitStore>::bytes(), 8);
}

#[test]
fn load_and_store_are_lossless() {
    assert_eq!(0xa5u8.load(), 0xa5);
    assert_eq!(<u8 as BitStore>::store(0xa5), 0xa5u8);
    assert_eq!(<u16 as BitStore>::store(0xbeef), 0xbeefu16);
    assert_eq!(<u32 as BitStore>::store(0xdead_beef), 0xdead_beefu32);
    assert_eq!(<u64 as BitStore>::store(u64::MAX), u64::MAX);
    assert_eq!(0xdead_beef_0000_0001u64.load(), 0xdead_beef_0000_0001);
}

#[test]
fn test_reads_one_position() {
    assert!(0b0000_0100u8.test(2));
    assert!(!0b0000_0100u8.test(3));
    assert!(0x8000u16.test(15));
    assert!(0x8000_0000_0000_0000u64.test(63));
    assert!(!0x7fff_ffff_ffff_ffffu64.test(63));
}

#[test]
fn write_changes_one_position() {
    assert_eq!(0u8.write(3, true), 0b0000_1000);
    assert_eq!(0xffu8.write(3, false), 0b1111_0111);
    assert_eq!(0b1000u8.write(3, true), 0b1000);
    assert_eq!(0u64.write(63, true), 0x8000_0000_0000_0000);
    assert_eq!(u32::MAX.write(0, false), 0xffff_fffe);
}

#[test]
fn mask_range_sets_a_run() {
    assert_eq!(<u8 as BitStore>::mask_range(2, 5), 0b0001_1100);
    assert_eq!(<u8 as BitStore>::mask_range(0, 8), 0xff);
    assert_eq!(<u8 as BitStore>::mask_range(4, 4), 0);
    assert_eq!(<u16 as BitStore>::mask_range(8, 16), 0xff00);
    assert_eq!(<u64 as BitStore>::mask_range(0, 64), u64::MAX);
    assert_eq!(<u64 as BitStore>::mask_range(63, 64), 0x8000_0000_0000_0000);
    assert_eq!(zero::<u32>(), 0);
}

#[test]
fn merge_and_or_combine_elements() {
    assert_eq!(0b1010_1010u8.merge(0b0000_1111, 0b0101_0101), 0b1010_0101);
    assert_eq!(0b1100u8.or(0b0110), 0b1110);
    assert_eq!(0b1100u8.and(0b0110), 0b0100);
}

#[test]
fn orders_map_indices_to_positions() {
    assert_eq!(Lsb0::at(8, 0), 0);
    assert_eq!(Lsb0::at(8, 7), 7);
    assert_eq!(Msb0::at(8, 0), 7);
    assert_eq!(Msb0::at(8, 7), 0);
    assert_eq!(Msb0::at(64, 1), 62);
    assert_eq!(Msb0::index(16, 15), 0);
    assert_eq!(Lsb0::index(16, 15), 15);
}

#[test]
fn orders_are_permutations_of_every_width() {
    for width in [8u8, 16, 32, 64] {
        assert!(verify_order::<Lsb0>(width));
        assert!(verify_order::<Msb0>(width));
        let mut seen_l = vec![false; width as usize];
        let mut seen_m = vec![false; width as usize];
        for i in 0..width {
            let l = Lsb0::at(width, i);
            let m = Msb0::at(width, i);
            assert!(l < width && m < width);
            assert!(!seen_l[l as usize] && !seen_m[m as usize]);
            seen_l[l as usize] = true;
            seen_m[m as usize] = true;
        }
        assert!(seen_l.iter().all(|b| *b) && seen_m.iter().all(|b| *b));
    }
}

#[test]
fn order_masks_cover_their_indices() {
    assert_eq!(Lsb0::mask(8, 2, 5), 0b0001_1100);
    assert_eq!(Msb0::mask(8, 2, 5), 0b0011_1000);
    assert_eq!(Msb0::mask(8, 0, 8), 0xff);
    assert_eq!(Lsb0::mask(16, 3, 3), 0);
    assert_eq!(Msb0::mask(16, 0, 4), 0xf000);
    assert_eq!(Lsb0::mask(64, 0, 64), u64::MAX);
    assert_eq!(Msb0::mask(64, 63, 64), 1);
}

#[test]
fn both_kinds_of_access_write_the_same() {
    for pos in 0..8u8 {
        for start in [0u8, 0xff, 0b1010_0101] {
            for value in [false, true] {
                let mut a = start;
                let mut b = start;
                write_bit(&mut a, pos, value, Access::Exclusive);
                write_bit(&mut b, pos, value, Access::Shared);
                assert_eq!(a, b);
                assert_eq!(read_bit(&a, pos), value);
                assert_eq!(a & !(1 << pos), start & !(1 << pos));
            }
        }
    }
}

#[test]
fn fetch_steps_return_the_old_element() {
    let mut e = 0b0011u16;
    assert_eq!(fetch_set(&mut e, 0b0110), 0b0011);
    assert_eq!(e, 0b0111);
    assert_eq!(fetch_keep(&mut e, 0b1101), 0b0111);
    assert_eq!(e, 0b0101);
}

#[test]
fn interleaved_writers_keep_to_their_ranges() {
    let low: Vec<(u8, bool)> = vec![(0, true), (1, false), (2, true), (0, false), (2, true)];
    let high: Vec<(u8, bool)> = vec![(5, true), (7, true), (6, false), (5, false), (4, true)];
    let alone = |start: u8, ws: &[(u8, bool)]| {
        let mut e = start;
        for (p, v) in ws {
            write_bit(&mut e, *p, *v, Access::Shared);
        }
        e
    };
    for start in [0u8, 0xff, 0b0110_1001] {
        let only_low = alone(start, &low);
        let only_high = alone(start, &high);
        for pattern in 0..(1u32 << 10) {
            if pattern.count_ones() != 5 {
                continue;
            }
            let mut e = start;
            let (mut i, mut j) = (0, 0);
            for step in 0..10 {
                if pattern >> step & 1 == 1 {
                    write_bit(&mut e, low[i].0, low[i].1, Access::Shared);
                    i += 1;
                } else {
                    write_bit(&mut e, high[j].0, high[j].1, Access::Shared);
                    j += 1;
                }
            }
            assert_eq!(e & 0b0000_0111, only_low & 0b0000_0111);
            assert_eq!(e & 0b1111_0000, only_high & 0b1111_0000);
            assert_eq!(e & 0b0000_1000, start & 0b0000_1000);
        }
    }
}
