use vstd::prelude::*;
use vstd::std_specs::convert::TryFromSpecImpl;

verus! {

pub const FMT_MASK: u8 = 0b0000_0011;
pub const SUBFMT_MASK: u8 = 0b0000_1100;

/// An unsigned value read from a packet, held in the narrowest of the
/// standard widths that covers the number of bits it was read from.
#[derive(Debug, Clone, PartialEq, Eq)]
pub enum UInt {
    U8(u8),
    U16(u16),
    U32(u32),
    U64(u64),
    U128(u128),
}

impl UInt {
    /// The number the value stands for, whatever its width.
    pub open spec fn value(self) -> nat {
        match self {
            UInt::U8(v) => v as nat,
            UInt::U16(v) => v as nat,
            UInt::U32(v) => v as nat,
            UInt::U64(v) => v as nat,
            UInt::U128(v) => v as nat,
        }
    }

    /// The value `v` read from `num_bits` bits, in the variant that
    /// `num_bits` selects: up to 8 bits `U8`, up to 16 `U16`, up to 32 `U32`,
    /// up to 64 `U64`, and `U128` beyond.
    pub open spec fn of_width(num_bits: nat, v: nat) -> UInt {
        if num_bits <= 8 {
            UInt::U8(v as u8)
        } else if num_bits <= 16 {
            UInt::U16(v as u16)
        } else if num_bits <= 32 {
            UInt::U32(v as u32)
        } else if num_bits <= 64 {
            UInt::U64(v as u64)
        } else {
            UInt::U128(v as u128)
        }
    }

    /// The value as a `u32`, or `None` when it does not fit in 32 bits.
    pub fn to_u32(&self) -> (r: Option<u32>)
        ensures
            r is Some <==> self.value() <= u32::MAX,
            r matches Some(v) ==> v as nat == self.value(),
    {
        match self {
            UInt::U8(v) => Some(*v as u32),
            UInt::U16(v) => Some(*v as u32),
            UInt::U32(v) => Some(*v),
            UInt::U64(v) => u32::try_from(*v).ok(),
            UInt::U128(v) => u32::try_from(*v).ok(),
        }
    }
}

impl TryFrom<UInt> for u8 {
    type Error = ();

    fn try_from(value: UInt) -> (r: Result<Self, Self::Error>) {
        if let UInt::U8(v) = value {
            Ok(v)
        } else {
            Err(())
        }
    }
}

impl TryFromSpecImpl<UInt> for u8 {
    open spec fn obeys_try_from_spec() -> bool {
        true
    }

    open spec fn try_from_spec(value: UInt) -> Result<Self, Self::Error> {
        match value {
            UInt::U8(v) => Ok(v),
            _ => Err(()),
        }
    }
}

impl TryFrom<UInt> for u16 {
    type Error = ();

    fn try_from(value: UInt) -> (r: Result<Self, Self::Error>) {
        if let UInt::U16(v) = value {
            Ok(v)
        } else {
            Err(())
        }
    }
}

impl TryFromSpecImpl<UInt> for u16 {
    open spec fn obeys_try_from_spec() -> bool {
        true
    }

    open spec fn try_from_spec(value: UInt) -> Result<Self, Self::Error> {
        match value {
            UInt::U16(v) => Ok(v),
            _ => Err(()),
        }
    }
}

impl TryFrom<UInt> for u32 {
    type Error = ();

    fn try_from(value: UInt) -> (r: Result<Self, Self::Error>) {
        if let UInt::U32(v) = value {
            Ok(v)
        } else {
            Err(())
        }
    }
}

impl TryFromSpecImpl<UInt> for u32 {
    open spec fn obeys_try_from_spec() -> bool {
        true
    }

    open spec fn try_from_spec(value: UInt) -> Result<Self, Self::Error> {
        match value {
            UInt::U32(v) => Ok(v),
            _ => Err(()),
        }
    }
}

impl TryFrom<UInt> for u64 {
    type Error = ();

    fn try_from(value: UInt) -> (r: Result<Self, Self::Error>) {
        if let UInt::U64(v) = value {
            Ok(v)
        } else {
            Err(())
        }
    }
}

impl TryFromSpecImpl<UInt> for u64 {
    open spec fn obeys_try_from_spec() -> bool {
        true
    }

    open spec fn try_from_spec(value: UInt) -> Result<Self, Self::Error> {
        match value {
            UInt::U64(v) => Ok(v),
            _ => Err(()),
        }
    }
}

impl TryFrom<UInt> for u128 {
    type Error = ();

    fn try_from(value: UInt) -> (r: Result<Self, Self::Error>) {
        if let UInt::U128(v) = value {
            Ok(v)
        } else {
            Err(())
        }
    }
}

impl TryFromSpecImpl<UInt> for u128 {
    open spec fn obeys_try_from_spec() -> bool {
        true
    }

    open spec fn try_from_spec(value: UInt) -> Result<Self, Self::Error> {
        match value {
            UInt::U128(v) => Ok(v),
            _ => Err(()),
        }
    }
}

/// The packet format, read from the first two bits of a packet.
#[allow(non_camel_case_types)]
#[derive(Debug, Clone, PartialEq, Eq)]
pub enum Fmt {
    /// optional
    Fmt_0,
    /// branch map
    Fmt_1,
    /// address
    Fmt_2,
    /// sync, trap, context, support
    Fmt_3,
}

impl Fmt {
    /// The format that a two-bit code names.
    pub open spec fn of_code(code: nat) -> Fmt {
        if code == 0 {
            Fmt::Fmt_0
        } else if code == 1 {
            Fmt::Fmt_1
        } else if code == 2 {
            Fmt::Fmt_2
        } else {
            Fmt::Fmt_3
        }
    }

    /// The two-bit code of a format.
    pub open spec fn code(self) -> nat {
        match self {
            Fmt::Fmt_0 => 0,
            Fmt::Fmt_1 => 1,
            Fmt::Fmt_2 => 2,
            Fmt::Fmt_3 => 3,
        }
    }

    /// The format whose code `value` holds; `value` must be a `U8` of at most 3.
    pub fn from(value: UInt) -> (r: Fmt)
        requires
            value is U8,
            value.value() <= 3,
        ensures
            r == Fmt::of_code(value.value()),
    {
        let v: u8 = <UInt as TryInto<u8>>::try_into(value).unwrap();
        match v {
            0b00 => Fmt::Fmt_0,
            0b01 => Fmt::Fmt_1,
            0b10 => Fmt::Fmt_2,
            _ => Fmt::Fmt_3,
        }
    }
}

/// The subformat of a format 3 packet.
#[derive(Debug, Clone, PartialEq, Eq)]
pub enum Subfmt {
    Start,
    Trap,
    Context,
    Support,
}

impl Subfmt {
    /// The subformat that a two-bit code names.
    pub open spec fn of_code(code: nat) -> Subfmt {
        if code == 0 {
            Subfmt::Start
        } else if code == 1 {
            Subfmt::Trap
        } else if code == 2 {
            Subfmt::Context
        } else {
            Subfmt::Support
        }
    }

    /// The two-bit code of a subformat.
    pub open spec fn code(self) -> nat {
        match self {
            Subfmt::Start => 0,
            Subfmt::Trap => 1,
            Subfmt::Context => 2,
            Subfmt::Support => 3,
        }
    }

    /// The subformat whose code `value` holds; `value` must be a `U8` of at most 3.
    pub fn from(value: UInt) -> (r: Subfmt)
        requires
            value is U8,
            value.value() <= 3,
        ensures
            r == Subfmt::of_code(value.value()),
    {
        let v: u8 = <UInt as TryInto<u8>>::try_into(value).unwrap();
        match v {
            0b00 => Subfmt::Start,
            0b01 => Subfmt::Trap,
            0b10 => Subfmt::Context,
            _ => Subfmt::Support,
        }
    }
}

/// A privilege level, with its code in a packet.
#[allow(non_camel_case_types)]
#[derive(Debug, Clone, PartialEq, Eq)]
pub enum Privilege {
    /// code 0
    P_U,
    /// code 1
    P_S,
    // 2 is reserved
    /// code 3
    P_M,
    // 4-7 is optional and unused for now
    /// code 4
    P_D,
    /// code 5
    P_VU,
    /// code 6
    P_VS,
    // 7 is reserved
}

impl Privilege {
    /// The codes that name a privilege level: 0, 1 and 3 to 6 (2 and 7 are
    /// reserved).
    pub open spec fn is_valid_code(code: nat) -> bool {
        code == 0 || code == 1 || (3 <= code <= 6)
    }

    /// The privilege level that a valid code names:
    /// 0 `P_U`, 1 `P_S`, 3 `P_M`, 4 `P_D`, 5 `P_VU`, 6 `P_VS`.
    pub open spec fn of_code(code: nat) -> Privilege {
        if code == 0 {
            Privilege::P_U
        } else if code == 1 {
            Privilege::P_S
        } else if code == 3 {
            Privilege::P_M
        } else if code == 4 {
            Privilege::P_D
        } else if code == 5 {
            Privilege::P_VU
        } else {
            Privilege::P_VS
        }
    }

    /// The code of a privilege level.
    pub open spec fn code(self) -> nat {
        match self {
            Privilege::P_U => 0,
            Privilege::P_S => 1,
            Privilege::P_M => 3,
            Privilege::P_D => 4,
            Privilege::P_VU => 5,
            Privilege::P_VS => 6,
        }
    }

    /// The privilege level whose code `value` holds; `value` must be a `U8`
    /// holding a valid code.
    pub fn from(value: UInt) -> (r: Privilege)
        requires
            value is U8,
            Privilege::is_valid_code(value.value()),
        ensures
            r == Privilege::of_code(value.value()),
    {
        let v: u8 = <UInt as TryInto<u8>>::try_into(value).unwrap();
        match v {
            0 => Privilege::P_U,
            1 => Privilege::P_S,
            3 => Privilege::P_M,
            4 => Privilege::P_D,
            5 => Privilege::P_VU,
            _ => Privilege::P_VS,
        }
    }
}

/// Formats and their two-bit codes correspond one to one: every format has a
/// code below 4 that names it, and every code below 4 names the format that
/// has it.
pub proof fn law_fmt_codes(f: Fmt, code: nat)
    ensures
        f.code() < 4,
        Fmt::of_code(f.code()) == f,
        code < 4 ==> Fmt::of_code(code).code() == code,
{
}

/// Subformats and their two-bit codes correspond one to one.
pub proof fn law_subfmt_codes(s: Subfmt, code: nat)
    ensures
        s.code() < 4,
        Subfmt::of_code(s.code()) == s,
        code < 4 ==> Subfmt::of_code(code).code() == code,
{
}

/// Privilege levels and the valid codes (0, 1 and 3 to 6) correspond one
/// to one.
pub proof fn law_privilege_codes(p: Privilege, code: nat)
    ensures
        Privilege::is_valid_code(p.code()),
        Privilege::of_code(p.code()) == p,
        Privilege::is_valid_code(code) ==> Privilege::of_code(code).code() == code,
{
}

// field widths
pub const FMT_WIDTH: usize = 2;
pub const SUBFMT_WIDTH: usize = 2;
pub const BRANCH_WIDTH: usize = 1;
pub const PRIVILEGE_WIDTH: usize = 3;
pub const TIME_WIDTH: usize = 64;
pub const CONTEXT_WIDTH: usize = 0xffff; // unimplemented
pub const ECAUSE_WIDTH: usize = 8;
pub const INTERRUPT_WIDTH: usize = 1;
pub const THADDR_WIDTH: usize = 1;
pub const ADDRESS_WIDTH: usize = 63;
pub const TVAL_WIDTH: usize = 64;
pub const NOTIFY_WIDTH: usize = 1;
pub const UPDISCON_WIDTH: usize = 1;
pub const BRANCHES_WIDTH: usize = 5;

} // verus!
