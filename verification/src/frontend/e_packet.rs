use bit_vec::BitVec;
use vstd::arithmetic::power2::{
    lemma2_to64, lemma2_to64_rest, lemma_pow2_strictly_increases, lemma_pow2_unfold, pow2,
};
use vstd::prelude::*;

use crate::frontend::bits::{
    bit_contents, bit_weight, bits_value, bv_append, bv_from_bytes, bv_get, bv_index, bv_len,
    bv_push, bv_split_off, bv_truncate, bv_with_capacity, byte_bit, is_bit_reverse,
    lemma_bits_value_bound, lemma_bits_value_concat, lsb_first_bits, msb_first_bits,
    reverse_byte_bits,
};
use crate::frontend::encodings::{
    Fmt, Privilege, Subfmt, UInt, ADDRESS_WIDTH, BRANCHES_WIDTH, BRANCH_WIDTH, ECAUSE_WIDTH,
    FMT_WIDTH, INTERRUPT_WIDTH, NOTIFY_WIDTH, PRIVILEGE_WIDTH, SUBFMT_WIDTH, THADDR_WIDTH,
    TIME_WIDTH, TVAL_WIDTH, UPDISCON_WIDTH,
};

verus! {

/// A decoded trace packet.
#[allow(non_camel_case_types)]
#[derive(Debug, Clone, PartialEq, Eq)]
pub enum Packet {
    FMT_3 {
        fmt: Fmt,
        subfmt: Subfmt,
        branch: Option<bool>,
        privilege: Option<Privilege>,
        time: Option<u64>,
        ecause: Option<u8>,
        interrupt: Option<bool>,
        thaddr: Option<bool>,
        address: Option<u64>,
        tval: Option<u64>,
    },
    FMT_2 { fmt: Fmt, address: u64, notify: bool, updiscon: bool },
    FMT_1 { fmt: Fmt, branches: u8, branch_map: u32, address: u64, notify: bool, updiscon: bool },
    Empty,
}

/// Why a packet's bits cannot be decoded.
#[derive(Debug, Clone, PartialEq, Eq)]
pub enum DecodeError {
    /// A field reaches past the end of the packet.
    InvalidBitCount,
    /// The privilege field holds a reserved code, 2 or 7.
    InvalidPrivilege,
    /// The packet is of format 0, or of format 3 with the support subformat.
    Unimplemented,
}

/// The value of the `width` bits of `b` that start at `start`, least
/// significant bit first.
pub open spec fn field(b: Seq<bool>, start: int, width: int) -> nat {
    bits_value(b.subrange(start, start + width))
}

/// The width of a format 1 branch map that records `branches` branches.
pub open spec fn branch_map_width(branches: nat) -> nat {
    if branches <= 3 {
        3
    } else if branches <= 7 {
        7
    } else if branches <= 15 {
        15
    } else if branches <= 31 {
        31
    } else {
        0
    }
}

/// The bits of a packet as its header and payload describe them: the
/// payload's bytes, least significant bit first, cut to
/// `num_bits_uncompressed` bits, or extended to that many bits with copies
/// of the payload's last bit.
pub open spec fn packet_bits(num_bits_uncompressed: nat, payload: Seq<u8>) -> Seq<bool> {
    let raw = lsb_first_bits(payload);
    if num_bits_uncompressed >= raw.len() {
        raw + Seq::new((num_bits_uncompressed - raw.len()) as nat, |_i: int| raw.last())
    } else {
        raw.take(num_bits_uncompressed as int)
    }
}

/// The outcome of reading a privilege field at `at` in a packet whose
/// fields end at `end`.
pub open spec fn privilege_fault(b: Seq<bool>, at: int, end: int) -> Option<DecodeError> {
    if b.len() < at + 3 {
        Some(DecodeError::InvalidBitCount)
    } else if !Privilege::is_valid_code(field(b, at, 3)) {
        Some(DecodeError::InvalidPrivilege)
    } else if b.len() < end {
        Some(DecodeError::InvalidBitCount)
    } else {
        None
    }
}

/// The first reason, reading the fields in order, why the packet `b`
/// cannot be decoded; `None` when it can.
pub open spec fn packet_fault(b: Seq<bool>) -> Option<DecodeError> {
    if b.len() < 2 {
        Some(DecodeError::InvalidBitCount)
    } else if field(b, 0, 2) == 3 {
        if b.len() < 4 {
            Some(DecodeError::InvalidBitCount)
        } else if field(b, 2, 2) == 0 {
            privilege_fault(b, 5, 135)
        } else if field(b, 2, 2) == 1 {
            privilege_fault(b, 5, 209)
        } else if field(b, 2, 2) == 2 {
            privilege_fault(b, 4, 71)
        } else {
            Some(DecodeError::Unimplemented)
        }
    } else if field(b, 0, 2) == 2 {
        if b.len() < 67 {
            Some(DecodeError::InvalidBitCount)
        } else {
            None
        }
    } else if field(b, 0, 2) == 1 {
        if b.len() < 7 {
            Some(DecodeError::InvalidBitCount)
        } else if b.len() < 72 + branch_map_width(field(b, 2, 5)) {
            Some(DecodeError::InvalidBitCount)
        } else {
            None
        }
    } else {
        Some(DecodeError::Unimplemented)
    }
}

/// The packet that the bits `b` encode (meaningful when `packet_fault(b)` is `None`).
/// Addresses are stored halved: the decoded address is the field doubled.
pub open spec fn packet_of_bits(b: Seq<bool>) -> Packet {
    if field(b, 0, 2) == 3 {
        let subfmt = Subfmt::of_code(field(b, 2, 2));
        if field(b, 2, 2) == 0 {
            Packet::FMT_3 {
                fmt: Fmt::Fmt_3,
                subfmt,
                branch: Some(field(b, 4, 1) > 0),
                privilege: Some(Privilege::of_code(field(b, 5, 3))),
                time: Some(field(b, 8, 64) as u64),
                ecause: None,
                interrupt: None,
                thaddr: None,
                address: Some((2 * field(b, 72, 63)) as u64),
                tval: None,
            }
        } else if field(b, 2, 2) == 1 {
            Packet::FMT_3 {
                fmt: Fmt::Fmt_3,
                subfmt,
                branch: Some(field(b, 4, 1) > 0),
                privilege: Some(Privilege::of_code(field(b, 5, 3))),
                time: Some(field(b, 8, 64) as u64),
                ecause: Some(field(b, 72, 8) as u8),
                interrupt: Some(field(b, 80, 1) > 0),
                thaddr: Some(field(b, 81, 1) > 0),
                address: Some((2 * field(b, 82, 63)) as u64),
                tval: Some(field(b, 145, 64) as u64),
            }
        } else {
            Packet::FMT_3 {
                fmt: Fmt::Fmt_3,
                subfmt,
                branch: None,
                privilege: Some(Privilege::of_code(field(b, 4, 3))),
                time: Some(field(b, 7, 64) as u64),
                ecause: None,
                interrupt: None,
                thaddr: None,
                address: None,
                tval: None,
            }
        }
    } else if field(b, 0, 2) == 2 {
        Packet::FMT_2 {
            fmt: Fmt::Fmt_2,
            address: (2 * field(b, 2, 63)) as u64,
            notify: field(b, 65, 1) > 0,
            updiscon: field(b, 66, 1) > 0,
        }
    } else {
        let w = branch_map_width(field(b, 2, 5)) as int;
        Packet::FMT_1 {
            fmt: Fmt::Fmt_1,
            branches: field(b, 2, 5) as u8,
            branch_map: field(b, 7, w) as u32,
            address: (2 * field(b, 7 + w, 63)) as u64,
            notify: field(b, 70 + w, 1) > 0,
            updiscon: field(b, 71 + w, 1) > 0,
        }
    }
}

/// The 16-bit number whose little-endian bytes are `buf`.
pub fn u16_from_le_bytes(buf: [u8; 2]) -> (r: u16)
    ensures
        r as int == buf[0] as int + 256 * buf[1] as int,
{
    let lo = buf[0];
    let hi = buf[1];
    assert((lo as u16) | ((hi as u16) << 8u16) == lo as int + 256 * hi as int) by (bit_vector);
    (lo as u16) | ((hi as u16) << 8u16)
}

/// Bit `i` of a 64-bit word.
pub open spec fn word_bit(x: u64, i: u64) -> bool {
    (x >> i) & 1 == 1
}

/// Reads the low `bits` bits of `value` as a two's complement number:
/// every bit of the result at or above `bits - 1` copies bit `bits - 1` of
/// `value`, and the bits below it are those of `value`.
pub fn sign_extend(value: u64, bits: u32) -> (r: i64)
    requires
        1 <= bits <= 64,
    ensures
        forall|i: u64|
            i < 64 ==> #[trigger] word_bit(r as u64, i) == word_bit(
                value,
                if i < bits {
                    i
                } else {
                    (bits - 1) as u64
                },
            ),
{
    let shift = 64 - bits;
    let r = ((value << shift) as i64) >> shift;
    assert forall|i: u64| i < 64 implies #[trigger] word_bit(r as u64, i) == word_bit(
        value,
        if i < bits {
            i
        } else {
            (bits - 1) as u64
        },
    ) by {
        let j: u64 = if i < bits {
            i
        } else {
            (bits - 1) as u64
        };
        assert(((r as u64) >> i) & 1 == (value >> j) & 1) by (bit_vector)
            requires
                1 <= bits <= 64,
                shift == 64 - bits,
                r == ((value << shift) as i64) >> shift,
                i < 64,
                j == if i < bits {
                    i
                } else {
                    (bits - 1) as u64
                },
        ;
    }
    r
}

/// `1 << i` in 128 bits is `2^i`.
proof fn lemma_u128_one_shl(i: u128)
    requires
        i < 128,
    ensures
        (1u128 << i) as nat == pow2(i as nat),
    decreases i,
{
    if i == 0 {
        assert(1u128 << 0u128 == 1u128) by (bit_vector);
        lemma2_to64();
    } else {
        lemma_u128_one_shl((i - 1) as u128);
        lemma_pow2_unfold(i as nat);
        assert(1u128 << i == (1u128 << ((i - 1) as u128)) * 2) by (bit_vector)
            requires
                0 < i < 128,
        ;
    }
}

/// Reads the first `num_bits` bits of `vector` as an unsigned number, least
/// significant bit first, and removes them from `vector`.
pub fn parse_bits(vector: &mut BitVec, num_bits: usize) -> (r: UInt)
    requires
        num_bits <= 128,
        num_bits <= bit_contents(*old(vector)).len(),
    ensures
        bit_contents(*final(vector)) == bit_contents(*old(vector)).skip(num_bits as int),
        r == UInt::of_width(
            num_bits as nat,
            bits_value(bit_contents(*old(vector)).take(num_bits as int)),
        ),
        r.value() == bits_value(bit_contents(*old(vector)).take(num_bits as int)),
        r.value() < pow2(num_bits as nat),
{
    let ghost bits = bit_contents(*vector);
    let mut value: u128 = 0;
    for i in 0..num_bits
        invariant
            bits == bit_contents(*vector),
            num_bits <= 128,
            num_bits <= bits.len(),
            value as nat == bits_value(bits.take(i as int)),
    {
        let b = bv_index(vector, i);
        let ghost prev = value;
        let ghost sh = i as u128;
        let bit: u128 = (b as u128) << i;
        value = value | bit;
        proof {
            let prefix = bits.take(i as int);
            let next = bits.take(i + 1);
            assert(next.drop_last() =~= prefix);
            assert(next.last() == b);
            lemma_bits_value_bound(prefix);
            lemma_u128_one_shl(sh);
            if b {
                assert(bit == 1u128 << sh);
                assert(prev < (1u128 << sh) ==> (prev | (1u128 << sh)) == prev + (1u128 << sh))
                    by (bit_vector)
                    requires
                        sh < 128,
                ;
                assert(value as nat == prev + pow2(i as nat));
            } else {
                assert(bit == 0u128 << sh);
                assert((prev | (0u128 << sh)) == prev) by (bit_vector)
                    requires
                        sh < 128,
                ;
                assert(value == prev);
            }
            assert(bits_value(next) == bits_value(prefix) + bit_weight(b) * pow2(i as nat));
        }
    }
    let rest = bv_split_off(vector, num_bits);
    *vector = rest;
    proof {
        lemma_bits_value_bound(bits.take(num_bits as int));
        lemma2_to64();
        lemma2_to64_rest();
        let n = num_bits as nat;
        if n < 8 {
            lemma_pow2_strictly_increases(n, 8);
        }
        if n < 16 {
            lemma_pow2_strictly_increases(n, 16);
        }
        if n < 32 {
            lemma_pow2_strictly_increases(n, 32);
        }
        if n < 64 {
            lemma_pow2_strictly_increases(n, 64);
        }
    }
    if num_bits <= 8 {
        UInt::U8(value as u8)
    } else if num_bits <= 16 {
        UInt::U16(value as u16)
    } else if num_bits <= 32 {
        UInt::U32(value as u32)
    } else if num_bits <= 64 {
        UInt::U64(value as u64)
    } else {
        UInt::U128(value)
    }
}

/// Reading `n` bits and then `m` more yields the two parts of the value of
/// the `n + m` bits read at once: the first read gives the low part, the
/// second the high part.
pub proof fn law_parse_bits_split(s: Seq<bool>, n: nat, m: nat)
    requires
        n + m <= s.len(),
    ensures
        bits_value(s.take((n + m) as int)) == bits_value(s.take(n as int)) + pow2(n) * bits_value(
            s.skip(n as int).take(m as int),
        ),
{
    assert(s.take((n + m) as int) =~= s.take(n as int) + s.skip(n as int).take(m as int));
    lemma_bits_value_concat(s.take(n as int), s.skip(n as int).take(m as int));
}

/// Shifting a 128-bit number left by `k` multiplies it by `2^k` when the
/// product fits.
proof fn lemma_u128_shl_is_mul(y: u128, k: u128)
    requires
        k < 128,
        y * pow2(k as nat) <= 0xffff_ffff_ffff_ffff_ffff_ffff_ffff_ffff,
    ensures
        (y << k) as nat == y * pow2(k as nat),
    decreases k,
{
    if k == 0 {
        assert(y << 0u128 == y) by (bit_vector);
        lemma2_to64();
    } else {
        let p = pow2((k - 1) as nat);
        lemma_pow2_unfold(k as nat);
        assert(y * pow2(k as nat) == 2 * (y * p)) by (nonlinear_arith)
            requires
                pow2(k as nat) == 2 * p,
        ;
        lemma_u128_shl_is_mul(y, (k - 1) as u128);
        let z = y << ((k - 1) as u128);
        assert(y << k == z * 2) by (bit_vector)
            requires
                0 < k < 128,
                z == y << ((k - 1) as u128),
                z <= 0x7fff_ffff_ffff_ffff_ffff_ffff_ffff_ffff,
        ;
    }
}

/// Reading `n + m` bits at once gives the value of the first `n` bits
/// or-ed with the value of the next `m` bits shifted left by `n`: reading
/// two adjacent fields with `parse_bits` and joining them as bits is
/// reading their concatenation.
pub proof fn law_parse_bits_split_or(s: Seq<bool>, n: nat, m: nat)
    requires
        n + m <= s.len(),
        n + m <= 128,
    ensures
        bits_value(s.take((n + m) as int)) == ((bits_value(s.take(n as int)) as u128) | ((bits_value(
            s.skip(n as int).take(m as int),
        ) as u128) << (n as u128))) as nat,
{
    let lo = bits_value(s.take(n as int));
    let hi = bits_value(s.skip(n as int).take(m as int));
    law_parse_bits_split(s, n, m);
    lemma_bits_value_bound(s.take(n as int));
    lemma_bits_value_bound(s.skip(n as int).take(m as int));
    lemma_bits_value_bound(s.take((n + m) as int));
    assert(pow2(128) == 0x1_0000_0000_0000_0000_0000_0000_0000_0000) by {
        vstd::arithmetic::power2::lemma_pow2_adds(64, 64);
        lemma2_to64();
    }
    if n + m < 128 {
        lemma_pow2_strictly_increases(n + m, 128);
    }
    if n < 128 {
        lemma_pow2_strictly_increases(n, 128);
    }
    if m < 128 {
        lemma_pow2_strictly_increases(m, 128);
    }
    let x = lo as u128;
    let y = hi as u128;
    let k = n as u128;
    if n == 128 {
        assert(s.skip(n as int).take(m as int).len() == 0);
        assert(y == 0);
        assert((x | (0u128 << 128u128)) == x) by (bit_vector);
        assert(k == 128u128);
    } else {
        assert(y * pow2(n) <= lo + pow2(n) * hi) by (nonlinear_arith)
            requires
                y == hi,
        ;
        lemma_u128_shl_is_mul(y, k);
        lemma_u128_one_shl(k);
        let z = y << k;
        assert(x & z == 0) by (bit_vector)
            requires
                k < 128,
                x < (1u128 << k),
                z == y << k,
        ;
        assert((x | z) as nat == x + z) by (bit_vector)
            requires
                x & z == 0,
        ;
        assert(y * pow2(n) == pow2(n) * hi) by (nonlinear_arith)
            requires
                y == hi,
        ;
    }
}

/// The layout of a format 1 (branch map) packet: after the 2-bit format
/// and the 5-bit branch count `n` comes a branch map of 3 bits when `n` is
/// at most 3, 7 bits for 4 to 7, 15 bits for 8 to 15 and 31 bits for 16 to
/// 31, then the 63-bit halved address, notify and updiscon. Such a packet
/// is accepted exactly when it holds all `72 + w` of those bits, and then
/// decodes to those fields.
pub proof fn law_branch_map_packet_layout(b: Seq<bool>)
    requires
        b.len() >= 7,
        field(b, 0, 2) == 1,
    ensures
        ({
            let n = field(b, 2, 5);
            let w: int = if n <= 3 {
                3
            } else if n <= 7 {
                7
            } else if n <= 15 {
                15
            } else {
                31
            };
            &&& n < 32
            &&& packet_fault(b) is None <==> b.len() >= 72 + w
            &&& packet_fault(b) is None ==> packet_of_bits(b) == (Packet::FMT_1 {
                fmt: Fmt::Fmt_1,
                branches: n as u8,
                branch_map: field(b, 7, w) as u32,
                address: (2 * field(b, 7 + w, 63)) as u64,
                notify: field(b, 70 + w, 1) > 0,
                updiscon: field(b, 71 + w, 1) > 0,
            })
        }),
{
    lemma_bits_value_bound(b.subrange(2, 7));
    assert(pow2(5) == 32) by {
        lemma2_to64();
    }
}

/// The layout of a format 2 (address) packet: the 2-bit format, the 63-bit
/// halved address, notify and updiscon. It is accepted exactly when it
/// holds those 67 bits, and then decodes to those fields.
pub proof fn law_address_packet_layout(b: Seq<bool>)
    requires
        b.len() >= 2,
        field(b, 0, 2) == 2,
    ensures
        packet_fault(b) is None <==> b.len() >= 67,
        packet_fault(b) is None ==> packet_of_bits(b) == (Packet::FMT_2 {
            fmt: Fmt::Fmt_2,
            address: (2 * field(b, 2, 63)) as u64,
            notify: field(b, 65, 1) > 0,
            updiscon: field(b, 66, 1) > 0,
        }),
{
}

/// Where a format 3 packet keeps its time and address: a start packet
/// (subformat 0) has its 64-bit time at bit 8 and its halved address at bit
/// 72; a trap packet (subformat 1) its time at bit 8, its halved address at
/// bit 82 and its 64-bit trap value at bit 145; a context packet
/// (subformat 2) its time at bit 7 and no address.
pub proof fn law_format3_packet_fields(b: Seq<bool>)
    requires
        b.len() >= 4,
        field(b, 0, 2) == 3,
        packet_fault(b) is None,
    ensures
        field(b, 2, 2) == 0 ==> b.len() >= 135 && (packet_of_bits(b) matches Packet::FMT_3 { subfmt: Subfmt::Start, time: Some(t), address: Some(a), .. }
            && t == field(b, 8, 64) && a == (2 * field(b, 72, 63)) as u64),
        field(b, 2, 2) == 1 ==> b.len() >= 209 && (packet_of_bits(b) matches Packet::FMT_3 { subfmt: Subfmt::Trap, time: Some(t), address: Some(a), tval: Some(v), .. }
            && t == field(b, 8, 64) && a == (2 * field(b, 82, 63)) as u64 && v == field(b, 145, 64)),
        field(b, 2, 2) == 2 ==> b.len() >= 71 && (packet_of_bits(b) matches Packet::FMT_3 { subfmt: Subfmt::Context, time: Some(t), address: None, .. }
            && t == field(b, 7, 64)),
        field(b, 2, 2) != 3,
{
    lemma_bits_value_bound(b.subrange(8, 72));
    lemma_bits_value_bound(b.subrange(7, 71));
    lemma_bits_value_bound(b.subrange(145, 209));
    lemma2_to64();
}

/// A rebuilt packet has exactly `num_bits_uncompressed` bits; those that
/// the payload holds are its bits, least significant first, and those
/// beyond it repeat the payload's last bit.
pub proof fn law_packet_bits_extend(num_bits_uncompressed: nat, payload: Seq<u8>)
    requires
        payload.len() >= 1,
    ensures
        packet_bits(num_bits_uncompressed, payload).len() == num_bits_uncompressed,
        forall|i: int|
            0 <= i < num_bits_uncompressed && i < 8 * payload.len() ==> #[trigger] packet_bits(
                num_bits_uncompressed,
                payload,
            )[i] == byte_bit(payload[i / 8], i % 8),
        forall|i: int|
            8 * payload.len() <= i < num_bits_uncompressed ==> #[trigger] packet_bits(
                num_bits_uncompressed,
                payload,
            )[i] == byte_bit(payload[payload.len() - 1], 7),
{
    let raw = lsb_first_bits(payload);
    let last = 8 * payload.len() - 1;
    assert(raw[last] == byte_bit(payload[payload.len() - 1], 7)) by {
        assert(last / 8 == payload.len() - 1);
        assert(last % 8 == 7);
    }
}

/// The addresses of a decoded packet are even, and the branch map of a
/// format 1 packet fits the width that its branch count selects.
pub proof fn law_decoded_fields(b: Seq<bool>)
    requires
        packet_fault(b) is None,
    ensures
        packet_of_bits(b) matches Packet::FMT_3 { address: Some(a), .. } ==> a % 2 == 0,
        packet_of_bits(b) matches Packet::FMT_2 { address, .. } ==> address % 2 == 0,
        packet_of_bits(b) matches Packet::FMT_1 { address, branches, branch_map, .. } ==> {
            &&& address % 2 == 0
            &&& branches < 32
            &&& branch_map < pow2(branch_map_width(branches as nat))
        },
{
    lemma2_to64();
    lemma2_to64_rest();
    if field(b, 0, 2) == 3 {
        if field(b, 2, 2) == 0 {
            lemma_bits_value_bound(b.subrange(72, 135));
        } else if field(b, 2, 2) == 1 {
            lemma_bits_value_bound(b.subrange(82, 145));
        }
    } else if field(b, 0, 2) == 2 {
        lemma_bits_value_bound(b.subrange(2, 65));
    } else if field(b, 0, 2) == 1 {
        let n = field(b, 2, 5);
        let w = branch_map_width(n) as int;
        lemma_bits_value_bound(b.subrange(2, 7));
        lemma_bits_value_bound(b.subrange(7, 7 + w));
        lemma_bits_value_bound(b.subrange(7 + w, 70 + w));
        lemma_pow2_strictly_increases(w as nat, 32);
    }
}

/// Rebuilds the bits of a packet from its header and its payload: each
/// payload byte is read least significant bit first, and the result is cut
/// to `num_bits_uncompressed` bits or extended to that many with copies of
/// its last bit.
pub fn build_packet_bits(
    num_bytes_compressed: u8,
    num_bits_uncompressed: u16,
    payload: &[u8],
) -> (r: BitVec)
    requires
        payload@.len() == num_bytes_compressed,
        num_bytes_compressed >= 1,
    ensures
        bit_contents(r) == packet_bits(num_bits_uncompressed as nat, payload@),
        bit_contents(r).len() == num_bits_uncompressed,
{
    let num_bytes_compressed: u16 = num_bytes_compressed as u16;

    // reverse each byte (the bit vector will, as a result, be LSB first)
    let mut buf: Vec<u8> = Vec::new();
    for i in 0..payload.len()
        invariant
            buf@.len() == i,
            forall|j: int| 0 <= j < i ==> is_bit_reverse(#[trigger] buf@[j], payload@[j]),
    {
        buf.push(reverse_byte_bits(payload[i]));
    }
    proof {
        let raw = lsb_first_bits(payload@);
        assert(msb_first_bits(buf@) =~= raw) by {
            assert forall|k: int| 0 <= k < raw.len() implies msb_first_bits(buf@)[k] == raw[k] by {
                let j = k / 8;
                let t = 7 - k % 8;
                assert(is_bit_reverse(buf@[j], payload@[j]));
                assert(byte_bit(buf@[j], t) == byte_bit(payload@[j], 7 - t));
            }
        }
    }

    // convert the payload to a bit vector, then add (or remove) padding to
    // reconstruct the uncompressed packet
    let mut packet = bv_from_bytes(buf.as_slice());
    if num_bits_uncompressed >= num_bytes_compressed * 8 {
        let padding_length = (num_bits_uncompressed - num_bytes_compressed * 8) as usize;
        let mut padding = bv_with_capacity(padding_length);

        let sign = bv_get(&packet, (num_bytes_compressed * 8 - 1) as usize);
        if let Some(sign) = sign {
            for i in 0..padding_length
                invariant
                    bit_contents(padding) == Seq::new(i as nat, |_j: int| sign),
                    padding_length <= u16::MAX,
            {
                bv_push(&mut padding, sign);
                assert(bit_contents(padding) =~= Seq::new((i + 1) as nat, |_j: int| sign));
            }
        }
        bv_append(&mut packet, &mut padding);
        assert(bit_contents(packet) =~= packet_bits(num_bits_uncompressed as nat, payload@));
    } else {
        bv_truncate(&mut packet, num_bits_uncompressed as usize);
    }
    packet
}

/// The value of the `width` bits of `v` that start at `start`, which it
/// leaves as they are.
fn peek_field(v: &BitVec, start: usize, width: usize) -> (r: u8)
    requires
        width <= 7,
        start + width <= bit_contents(*v).len(),
        bit_contents(*v).len() <= usize::MAX,
    ensures
        r as nat == field(bit_contents(*v), start as int, width as int),
{
    let ghost bits = bit_contents(*v);
    let mut value: u8 = 0;
    for j in 0..width
        invariant
            bits == bit_contents(*v),
            width <= 7,
            start + width <= bits.len(),
            bits.len() <= usize::MAX,
            value as nat == bits_value(bits.subrange(start as int, start + j)),
    {
        let b = bv_index(v, start + j);
        let ghost prev = value;
        let ghost sh = j as u8;
        let bit: u8 = (b as u8) << j;
        value = value | bit;
        proof {
            let prefix = bits.subrange(start as int, start + j);
            let next = bits.subrange(start as int, start + j + 1);
            assert(next.drop_last() =~= prefix);
            assert(next.last() == b);
            lemma_bits_value_bound(prefix);
            lemma2_to64();
            lemma_pow2_strictly_increases(sh as nat, 7);
            vstd::bits::lemma_u8_shl_is_mul(1, sh);
            if b {
                assert(bit == 1u8 << sh);
                assert(prev < (1u8 << sh) ==> (prev | (1u8 << sh)) == prev + (1u8 << sh))
                    by (bit_vector)
                    requires
                        sh < 8,
                ;
                assert(value as nat == prev + pow2(j as nat));
            } else {
                assert(bit == 0u8 << sh);
                assert((prev | (0u8 << sh)) == prev) by (bit_vector)
                    requires
                        sh < 8,
                ;
                assert(value == prev);
            }
            assert(bits_value(next) == bits_value(prefix) + bit_weight(b) * pow2(j as nat));
        }
    }
    value
}

/// The outcome of reading the privilege field at `at` of a packet whose
/// fields end at `end`.
fn check_privilege(packet: &BitVec, len: usize, at: usize, end: usize) -> (r: Option<DecodeError>)
    requires
        len == bit_contents(*packet).len(),
        at <= 8,
        len <= usize::MAX,
    ensures
        r == privilege_fault(bit_contents(*packet), at as int, end as int),
{
    if len < at + 3 {
        return Some(DecodeError::InvalidBitCount);
    }
    let code = peek_field(packet, at, PRIVILEGE_WIDTH);
    if code == 2 || code > 6 {
        Some(DecodeError::InvalidPrivilege)
    } else if len < end {
        Some(DecodeError::InvalidBitCount)
    } else {
        None
    }
}

/// The first reason, reading the fields in order, why the packet cannot be
/// decoded, or `None` when `decode_packet` accepts it.
pub fn check_packet(packet: &BitVec) -> (r: Option<DecodeError>)
    ensures
        r == packet_fault(bit_contents(*packet)),
{
    let len = bv_len(packet);
    if len < 2 {
        return Some(DecodeError::InvalidBitCount);
    }
    let fmt = peek_field(packet, 0, FMT_WIDTH);
    if fmt == 3 {
        if len < 4 {
            return Some(DecodeError::InvalidBitCount);
        }
        let subfmt = peek_field(packet, 2, SUBFMT_WIDTH);
        if subfmt == 0 {
            check_privilege(packet, len, 5, 135)
        } else if subfmt == 1 {
            check_privilege(packet, len, 5, 209)
        } else if subfmt == 2 {
            check_privilege(packet, len, 4, 71)
        } else {
            Some(DecodeError::Unimplemented)
        }
    } else if fmt == 2 {
        if len < 67 {
            Some(DecodeError::InvalidBitCount)
        } else {
            None
        }
    } else if fmt == 1 {
        if len < 7 {
            return Some(DecodeError::InvalidBitCount);
        }
        let branches = peek_field(packet, 2, BRANCHES_WIDTH);
        let width: usize = if branches <= 3 {
            3
        } else if branches <= 7 {
            7
        } else if branches <= 15 {
            15
        } else if branches <= 31 {
            31
        } else {
            0
        };
        if len < 72 + width {
            Some(DecodeError::InvalidBitCount)
        } else {
            None
        }
    } else {
        Some(DecodeError::Unimplemented)
    }
}

/// Reads the field of `width` bits at `pos` of the packet `all`, whose
/// bits from `pos` on are what `packet` still holds.
fn take_field(
    packet: &mut BitVec,
    width: usize,
    Ghost(all): Ghost<Seq<bool>>,
    Ghost(pos): Ghost<int>,
) -> (r: UInt)
    requires
        width <= 128,
        0 <= pos,
        pos + width <= all.len(),
        bit_contents(*old(packet)) == all.skip(pos),
    ensures
        bit_contents(*final(packet)) == all.skip(pos + width),
        r == UInt::of_width(width as nat, field(all, pos, width as int)),
        r.value() == field(all, pos, width as int),
        r.value() < pow2(width as nat),
{
    let r = parse_bits(packet, width);
    proof {
        assert(all.skip(pos).take(width as int) =~= all.subrange(pos, pos + width));
        assert(all.skip(pos).skip(width as int) =~= all.skip(pos + width));
        lemma_bits_value_bound(all.subrange(pos, pos + width));
    }
    r
}

/// Decodes the fields of a packet, in order.
pub fn decode_packet(packet: BitVec) -> (r: Packet)
    requires
        packet_fault(bit_contents(packet)) is None,
    ensures
        r == packet_of_bits(bit_contents(packet)),
{
    let ghost all = bit_contents(packet);
    let mut packet = packet;
    proof {
        assert(all.skip(0) =~= all);
        lemma2_to64();
        lemma2_to64_rest();
    }
    let fmt: Fmt = Fmt::from(take_field(&mut packet, FMT_WIDTH, Ghost(all), Ghost(0)));
    match fmt {
        Fmt::Fmt_3 => {
            let subfmt = Subfmt::from(take_field(&mut packet, SUBFMT_WIDTH, Ghost(all), Ghost(2)));
            match subfmt {
                Subfmt::Start => {
                    let branch: u8 = take_field(&mut packet, BRANCH_WIDTH, Ghost(all), Ghost(4)).try_into().unwrap();
                    let privilege: Privilege = Privilege::from(take_field(&mut packet, PRIVILEGE_WIDTH, Ghost(all), Ghost(5)));
                    let time: u64 = take_field(&mut packet, TIME_WIDTH, Ghost(all), Ghost(8)).try_into().unwrap();
                    let address: u64 = take_field(&mut packet, ADDRESS_WIDTH, Ghost(all), Ghost(72)).try_into().unwrap();
                    proof {
                        lemma_shl_one_doubles(address);
                    }
                    Packet::FMT_3 {
                        fmt: fmt,
                        subfmt: subfmt,
                        branch: Some(branch > 0),
                        privilege: Some(privilege),
                        time: Some(time),
                        ecause: None,
                        interrupt: None,
                        thaddr: None,
                        address: Some(address << 1),
                        tval: None,
                    }
                },
                Subfmt::Trap => {
                    let branch: u8 = take_field(&mut packet, BRANCH_WIDTH, Ghost(all), Ghost(4)).try_into().unwrap();
                    let privilege: Privilege = Privilege::from(take_field(&mut packet, PRIVILEGE_WIDTH, Ghost(all), Ghost(5)));
                    let time: u64 = take_field(&mut packet, TIME_WIDTH, Ghost(all), Ghost(8)).try_into().unwrap();
                    let ecause: u8 = take_field(&mut packet, ECAUSE_WIDTH, Ghost(all), Ghost(72)).try_into().unwrap();
                    let interrupt: u8 = take_field(&mut packet, INTERRUPT_WIDTH, Ghost(all), Ghost(80)).try_into().unwrap();
                    let thaddr: u8 = take_field(&mut packet, THADDR_WIDTH, Ghost(all), Ghost(81)).try_into().unwrap();
                    let address: u64 = take_field(&mut packet, ADDRESS_WIDTH, Ghost(all), Ghost(82)).try_into().unwrap();
                    let tval: u64 = take_field(&mut packet, TVAL_WIDTH, Ghost(all), Ghost(145)).try_into().unwrap();
                    proof {
                        lemma_shl_one_doubles(address);
                    }
                    Packet::FMT_3 {
                        fmt: fmt,
                        subfmt: subfmt,
                        branch: Some(branch > 0),
                        privilege: Some(privilege),
                        time: Some(time),
                        ecause: Some(ecause),
                        interrupt: Some(interrupt > 0),
                        thaddr: Some(thaddr > 0),
                        address: Some(address << 1),
                        tval: Some(tval),
                    }
                },
                Subfmt::Context => {
                    let privilege: Privilege = Privilege::from(take_field(&mut packet, PRIVILEGE_WIDTH, Ghost(all), Ghost(4)));
                    let time: u64 = take_field(&mut packet, TIME_WIDTH, Ghost(all), Ghost(7)).try_into().unwrap();
                    Packet::FMT_3 {
                        fmt: fmt,
                        subfmt: subfmt,
                        branch: None,
                        privilege: Some(privilege),
                        time: Some(time),
                        ecause: None,
                        interrupt: None,
                        thaddr: None,
                        address: None,
                        tval: None,
                    }
                },
                Subfmt::Support => {
                    proof {
                        assert(false);
                    }
                    Packet::Empty
                },
            }
        },
        Fmt::Fmt_2 => {
            let address: u64 = take_field(&mut packet, ADDRESS_WIDTH, Ghost(all), Ghost(2)).try_into().unwrap();
            let notify: u8 = take_field(&mut packet, NOTIFY_WIDTH, Ghost(all), Ghost(65)).try_into().unwrap();
            let updiscon: u8 = take_field(&mut packet, UPDISCON_WIDTH, Ghost(all), Ghost(66)).try_into().unwrap();
            proof {
                lemma_shl_one_doubles(address);
            }
            Packet::FMT_2 {
                fmt: fmt,
                address: address << 1,
                notify: notify > 0,
                updiscon: updiscon > 0,
            }
        },
        Fmt::Fmt_1 => {
            let branches: u8 = take_field(&mut packet, BRANCHES_WIDTH, Ghost(all), Ghost(2)).try_into().unwrap();
            let branch_map_width: usize = if branches <= 3 {
                3
            } else if branches <= 7 {
                7
            } else if branches <= 15 {
                15
            } else if branches <= 31 {
                31
            } else {
                0
            };
            let ghost w = branch_map_width as int;
            let branch_map: u32 = take_field(&mut packet, branch_map_width, Ghost(all), Ghost(7)).to_u32().unwrap();
            let address: u64 = take_field(&mut packet, ADDRESS_WIDTH, Ghost(all), Ghost(7 + w)).try_into().unwrap();
            let notify: u8 = take_field(&mut packet, NOTIFY_WIDTH, Ghost(all), Ghost(70 + w)).try_into().unwrap();
            let updiscon: u8 = take_field(&mut packet, UPDISCON_WIDTH, Ghost(all), Ghost(71 + w)).try_into().unwrap();
            proof {
                lemma_shl_one_doubles(address);
            }
            Packet::FMT_1 {
                fmt: fmt,
                branches: branches,
                branch_map: branch_map,
                address: address << 1,
                notify: notify > 0,
                updiscon: updiscon > 0,
            }
        },
        Fmt::Fmt_0 => {
            proof {
                assert(false);
            }
            Packet::Empty
        },
    }
}

/// Decodes a packet from its header and its payload: rebuilds its bits
/// (`build_packet_bits`), refuses them with the first fault that
/// `check_packet` finds, and decodes them otherwise.
pub fn decode_payload(num_bytes_compressed: u8, num_bits_uncompressed: u16, payload: &[u8]) -> (r: Result<
    Packet,
    DecodeError,
>)
    requires
        payload@.len() == num_bytes_compressed,
        num_bytes_compressed >= 1,
    ensures
        ({
            let b = packet_bits(num_bits_uncompressed as nat, payload@);
            match r {
                Ok(p) => packet_fault(b) is None && p == packet_of_bits(b),
                Err(e) => packet_fault(b) == Some(e),
            }
        }),
{
    let packet = build_packet_bits(num_bytes_compressed, num_bits_uncompressed, payload);
    match check_packet(&packet) {
        None => Ok(decode_packet(packet)),
        Some(e) => Err(e),
    }
}

/// Shifting an address field of at most 63 bits left by one doubles it.
proof fn lemma_shl_one_doubles(address: u64)
    requires
        address < 0x8000_0000_0000_0000,
    ensures
        (address << 1) as nat == 2 * address,
{
    assert(address < 0x8000_0000_0000_0000 ==> (address << 1) == address * 2) by (bit_vector);
}

} // verus!
