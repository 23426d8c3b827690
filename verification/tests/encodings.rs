use trace_decoder::frontend::encodings::{Fmt, Privilege, Subfmt, UInt};

#[test]
fn to_u32_fits() {
    assert_eq!(UInt::U8(7).to_u32(), Some(7));
    assert_eq!(UInt::U16(0xffff).to_u32(), Some(0xffff));
    assert_eq!(UInt::U32(u32::MAX).to_u32(), Some(u32::MAX));
    assert_eq!(UInt::U64(u32::MAX as u64).to_u32(), Some(u32::MAX));
    assert_eq!(UInt::U64(u32::MAX as u64 + 1).to_u32(), None);
    assert_eq!(UInt::U128(12).to_u32(), Some(12));
    assert_eq!(UInt::U128(1 << 100).to_u32(), None);
}

#[test]
fn try_from_matches_variant() {
    assert_eq!(u8::try_from(UInt::U8(3)), Ok(3));
    assert_eq!(u8::try_from(UInt::U16(3)), Err(()));
    assert_eq!(u16::try_from(UInt::U16(300)), Ok(300));
    assert_eq!(u32::try_from(UInt::U64(1)), Err(()));
    assert_eq!(u64::try_from(UInt::U64(1 << 40)), Ok(1 << 40));
    assert_eq!(u128::try_from(UInt::U128(5)), Ok(5));
    assert_eq!(u128::try_from(UInt::U8(5)), Err(()));
}

#[test]
fn fmt_from_codes() {
    assert_eq!(Fmt::from(UInt::U8(0)), Fmt::Fmt_0);
    assert_eq!(Fmt::from(UInt::U8(1)), Fmt::Fmt_1);
    assert_eq!(Fmt::from(UInt::U8(2)), Fmt::Fmt_2);
    assert_eq!(Fmt::from(UInt::U8(3)), Fmt::Fmt_3);
}

#[test]
fn subfmt_from_codes() {
    assert_eq!(Subfmt::from(UInt::U8(0)), Subfmt::Start);
    assert_eq!(Subfmt::from(UInt::U8(1)), Subfmt::Trap);
    assert_eq!(Subfmt::from(UInt::U8(2)), Subfmt::Context);
    assert_eq!(Subfmt::from(UInt::U8(3)), Subfmt::Support);
}

#[test]
fn privilege_from_codes() {
    assert_eq!(Privilege::from(UInt::U8(0)), Privilege::P_U);
    assert_eq!(Privilege::from(UInt::U8(1)), Privilege::P_S);
    assert_eq!(Privilege::from(UInt::U8(3)), Privilege::P_M);
    assert_eq!(Privilege::from(UInt::U8(4)), Privilege::P_D);
    assert_eq!(Privilege::from(UInt::U8(5)), Privilege::P_VU);
    assert_eq!(Privilege::from(UInt::U8(6)), Privilege::P_VS);
}

#[test]
fn fmt_discriminants_are_their_codes() {
    assert_eq!(Fmt::Fmt_0 as u8, 0b00);
    assert_eq!(Fmt::Fmt_1 as u8, 0b01);
    assert_eq!(Fmt::Fmt_2 as u8, 0b10);
    assert_eq!(Fmt::Fmt_3 as u8, 0b11);
}
