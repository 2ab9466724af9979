use zarchive2::big_endian::{U16, U32, U64};

#[test]
fn integers_round_trip() {
    for v in [0u16, 1, 0x00FF, 0x0100, 0x1234, 0x7FFF, 0x8000, u16::MAX] {
        assert_eq!(U16::new(v).get(), v);
    }
    for v in [0u32, 1, 0xFF, 0x100, 0x1234_5678, 0x7FFF_FFFF, 0x8000_0000, u32::MAX] {
        assert_eq!(U32::new(v).get(), v);
    }
    for v in [0u64, 1, 0xFFFF_FFFF, 0x1_0000_0000, 0x0123_4567_89AB_CDEF, u64::MAX - 1, u64::MAX] {
        assert_eq!(U64::new(v).get(), v);
    }
}

#[test]
fn every_u16_round_trips() {
    for v in 0..=u16::MAX {
        assert_eq!(U16::new(v).get(), v);
    }
}

#[test]
fn integers_set() {
    let mut a = U16::new(1);
    a.set(0xBEEF);
    assert_eq!(a.get(), 0xBEEF);
    let mut b = U32::new(1);
    b.set(0xDEAD_BEEF);
    assert_eq!(b.get(), 0xDEAD_BEEF);
    let mut c = U64::new(1);
    c.set(0xFEED_FACE_CAFE_BEEF);
    assert_eq!(c.get(), 0xFEED_FACE_CAFE_BEEF);
}

#[test]
fn integers_are_big_endian_on_disk() {
    let mut out = Vec::new();
    U16::new(0x1234).write(&mut out);
    U32::new(0x5678_9ABC).write(&mut out);
    U64::new(0x0102_0304_0506_0708).write(&mut out);
    assert_eq!(
        out,
        vec![0x12, 0x34, 0x56, 0x78, 0x9A, 0xBC, 1, 2, 3, 4, 5, 6, 7, 8]
    );
    assert_eq!(U16::read(&out, 0).get(), 0x1234);
    assert_eq!(U32::read(&out, 2).get(), 0x5678_9ABC);
    assert_eq!(U64::read(&out, 6).get(), 0x0102_0304_0506_0708);
    // unaligned positions read the same way
    assert_eq!(U16::read(&out, 1).get(), 0x3456);
    assert_eq!(U32::read(&out, 3).get(), 0x789A_BC01);
}
