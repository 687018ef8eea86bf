use fsvfs::unaligned::{U16, U24, U32, U64};

#[test]
fn unaligned_round_trip() {
    for v in [0u32, 1, 0x1234, 0xff_ffff, 0xdead_beef, u32::MAX] {
        assert_eq!(U32::new(v).get(), v);
    }
    for v in [0u64, 1, 0x0123_4567_89ab_cdef, u64::MAX] {
        assert_eq!(U64::new(v).get(), v);
    }
    assert_eq!(U16::new(0xbeef).get(), 0xbeef);
    assert_eq!(U24::new(0x12_3456).get(), 0x12_3456);
}

#[test]
fn unaligned_little_endian_bytes() {
    assert_eq!(U32::new(0x0403_0201).0, [1, 2, 3, 4]);
    assert_eq!(U24::new(0x0403_0201).0, [1, 2, 3]);
    assert_eq!(U24::new(0x0403_0201).get(), 0x03_0201);
    assert_eq!(U64::new(0x0807_0605_0403_0201).0, [1, 2, 3, 4, 5, 6, 7, 8]);
    assert!(U24::try_from(0x100_0000).is_none());
    assert_eq!(U24::try_from(0xff_ffff).unwrap().get(), 0xff_ffff);
}
