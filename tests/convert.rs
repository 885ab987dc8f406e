use terminus_store::convert::{BitMask, FromUsize, IntoUsize, Truncate};

#[test]
fn into_usize_common() {
    assert_eq!(1u8.into_usize(), 1usize);
    assert_eq!(1u16.into_usize(), 1usize);
    assert_eq!(1u32.into_usize(), 1usize);
}

#[test]
fn from_usize_only_64() {
    assert_eq!(u64::from_usize(1), 1);
}

#[test]
fn truncate_pass() {
    assert_eq!(u8::truncate(0xaa_aau64), 0xaa);
}

#[test]
fn bitmask_pass() {
    assert_eq!(usize::max_value().bitmask(0x0f), 0x0f);
}

#[test]
fn into_usize_keeps_large_values() {
    assert_eq!(0xffff_ffffu32.into_usize(), 0xffff_ffffusize);
    assert_eq!(300u16.into_usize(), 300usize);
}

#[test]
fn truncate_keeps_low_byte() {
    assert_eq!(u8::truncate(0x1234_5678_9abc_def0u64), 0xf0);
    assert_eq!(u8::truncate(0x100u64), 0);
}

#[test]
fn bitmask_u32_narrows() {
    assert_eq!(0x1234u32.bitmask(0xf0), 0x30);
    assert_eq!(0x0fusize.bitmask(0xf0), 0);
}
