use submerge::{Bitmap256, DoubleBitmap256};

#[test]
fn test_rank() {
    let mut bm = Bitmap256::new();
    for i in 0..=255u8 {
        bm.set(i, true);
        assert_eq!(bm.rank(i), i as usize + 1);
    }
    assert_eq!(bm.rank(255), 256);
    for i in 0..=127u8 {
        assert_eq!(bm.rank(255), 256 - i as usize);
        bm.set(i * 2, false);
    }
}

fn lcg_rand_step(state: &mut u32) {
    *state = (*state as u64 * 279470273u64 % 0xfffffffb) as u32;
}

#[test]
fn test_double_bitmap() {
    let mut bm = DoubleBitmap256::new();
    let mut state = 1234;
    for _i in 0..256_u32 {
        lcg_rand_step(&mut state);
        let i = state % 256;
        lcg_rand_step(&mut state);
        let val = state & 3;
        bm.set(i as u8, val as u8);
        assert_eq!(bm.get(i as u8), val as u8);
    }
}

#[test]
fn bitmap_set_get_and_clear() {
    let mut bm = Bitmap256::new();
    assert!(bm.is_empty());
    assert!(!bm.any());
    bm.set(0, true);
    bm.set(63, true);
    bm.set(64, true);
    bm.set(255, true);
    assert!(bm.get(0) && bm.get(63) && bm.get(64) && bm.get(255));
    assert!(!bm.get(1) && !bm.get(128));
    assert_eq!(bm.bits, [0x8000_0000_0000_0001, 1, 0, 0x8000_0000_0000_0000]);
    assert_eq!(bm.count(), 4);
    assert!(bm.any());
    bm.set(63, false);
    assert!(!bm.get(63));
    assert_eq!(bm.count(), 3);
    bm.set_all();
    assert!(bm.is_full());
    assert_eq!(bm.count(), 256);
    bm.clear_all();
    assert!(bm.is_empty());
    assert_eq!(bm.count(), 0);
}

#[test]
fn bitmap_rank_is_monotone_and_ends_at_count() {
    let mut bm = Bitmap256::new();
    for i in [3u8, 17, 64, 100, 200, 254] {
        bm.set(i, true);
    }
    let mut prev = 0;
    for i in 0..=255u8 {
        let r = bm.rank(i);
        assert!(r >= prev);
        prev = r;
    }
    assert_eq!(bm.rank(255), bm.count() as usize);
    assert_eq!(bm.rank(2), 0);
    assert_eq!(bm.rank(3), 1);
    assert_eq!(bm.rank(99), 3);
}

#[test]
fn bitmap_union_intersect_subtract() {
    let mut a = Bitmap256::new();
    let mut b = Bitmap256::new();
    a.set(1, true);
    a.set(2, true);
    b.set(2, true);
    b.set(200, true);
    let mut u = a;
    u.union(&b);
    assert!(u.get(1) && u.get(2) && u.get(200));
    assert_eq!(u.count(), 3);
    let mut i = a;
    i.intersect(&b);
    assert!(!i.get(1) && i.get(2) && !i.get(200));
    assert_eq!(i.count(), 1);
    let mut s = a;
    s.subtract(&b);
    assert!(s.get(1) && !s.get(2) && !s.get(200));
    assert_eq!(s.count(), 1);
}

#[test]
fn double_bitmap_planes() {
    let mut d = DoubleBitmap256::new();
    d.set(5, 3);
    d.set(6, 2);
    d.set(7, 1);
    assert_eq!(d.get(5), 3);
    assert_eq!(d.get(6), 2);
    assert_eq!(d.get(7), 1);
    assert_eq!(d.get(8), 0);
    assert!(d.lo.get(5) && d.hi.get(5));
    assert!(!d.lo.get(6) && d.hi.get(6));
    assert!(d.lo.get(7) && !d.hi.get(7));
    d.set(5, 0);
    assert_eq!(d.get(5), 0);
}
