use bit_vec::BitVec;
use vstd::arithmetic::power2::{lemma_pow2_adds, lemma_pow2_unfold, pow2};
use vstd::prelude::*;

verus! {

#[verifier::external_type_specification]
#[verifier::external_body]
#[verifier::reject_recursive_types(B)]
pub struct ExBitVec<B>(BitVec<B>);

/// The bits a `BitVec` holds, in index order.
pub uninterp spec fn bit_contents(v: BitVec) -> Seq<bool>;

/// Bit `i` (counted from the least significant bit) of a byte.
pub open spec fn byte_bit(b: u8, i: int) -> bool {
    (b >> (i as u8)) & 1 == 1
}

/// The bits of a byte string, each byte's most significant bit first:
/// the order in which `BitVec::from_bytes` lays them out.
pub open spec fn msb_first_bits(bytes: Seq<u8>) -> Seq<bool> {
    Seq::new(bytes.len() * 8, |k: int| byte_bit(bytes[k / 8], 7 - k % 8))
}

/// The bits of a byte string, each byte's least significant bit first.
pub open spec fn lsb_first_bits(bytes: Seq<u8>) -> Seq<bool> {
    Seq::new(bytes.len() * 8, |k: int| byte_bit(bytes[k / 8], k % 8))
}

/// 1 for a set bit, 0 for a clear one.
pub open spec fn bit_weight(b: bool) -> nat {
    if b {
        1
    } else {
        0
    }
}

/// The number that a bit string denotes when its first bit is the least
/// significant one.
pub open spec fn bits_value(s: Seq<bool>) -> nat
    decreases s.len(),
{
    if s.len() == 0 {
        0
    } else {
        bits_value(s.drop_last()) + bit_weight(s.last()) * pow2((s.len() - 1) as nat)
    }
}

/// A bit string of `n` bits denotes a number below `2^n`.
pub proof fn lemma_bits_value_bound(s: Seq<bool>)
    ensures
        bits_value(s) < pow2(s.len()),
    decreases s.len(),
{
    if s.len() == 0 {
        assert(pow2(0) == 1) by {
            vstd::arithmetic::power2::lemma2_to64();
        }
    } else {
        lemma_bits_value_bound(s.drop_last());
        lemma_pow2_unfold(s.len());
    }
}

/// The value of a concatenation: the second part counts above the first.
pub proof fn lemma_bits_value_concat(a: Seq<bool>, b: Seq<bool>)
    ensures
        bits_value(a + b) == bits_value(a) + pow2(a.len()) * bits_value(b),
    decreases b.len(),
{
    if b.len() == 0 {
        assert(a + b =~= a);
        assert(bits_value(b) == 0);
        assert(pow2(a.len()) * bits_value(b) == 0);
    } else {
        lemma_bits_value_concat(a, b.drop_last());
        assert((a + b).drop_last() =~= a + b.drop_last());
        lemma_pow2_adds(a.len(), (b.len() - 1) as nat);
        let p = pow2(a.len()) as int;
        let q = pow2((b.len() - 1) as nat) as int;
        let w = bit_weight(b.last()) as int;
        let rest = bits_value(b.drop_last()) as int;
        assert((a + b).last() == b.last());
        assert(((a + b).len() - 1) as nat == a.len() + (b.len() - 1) as nat);
        assert(bits_value(a + b) == bits_value(a) + p * rest + w * (p * q));
        assert(p * (rest + w * q) == p * rest + w * (p * q)) by (nonlinear_arith);
        assert(bits_value(b) == rest + w * q);
        assert(pow2(a.len()) * bits_value(b) == p * (rest + w * q));
    }
}

/// `r` holds the bits of `b` in the opposite order.
pub open spec fn is_bit_reverse(r: u8, b: u8) -> bool {
    forall|i: int| 0 <= i < 8 ==> #[trigger] byte_bit(r, i) == byte_bit(b, 7 - i)
}

/// `u8::reverse_bits`: the least significant bit becomes the most
/// significant one, and so on.
#[verifier::external_body]
pub(crate) fn reverse_byte_bits(b: u8) -> (r: u8)
    ensures
        is_bit_reverse(r, b),
{
    b.reverse_bits()
}

/// `BitVec::len`: the number of bits held.
#[verifier::external_body]
pub(crate) fn bv_len(v: &BitVec) -> (r: usize)
    ensures
        r == bit_contents(*v).len(),
{
    v.len()
}

/// `BitVec::from_bytes`: each byte becomes eight bits, most significant first.
#[verifier::external_body]
pub(crate) fn bv_from_bytes(bytes: &[u8]) -> (r: BitVec)
    requires
        bytes@.len() * 8 <= usize::MAX,
    ensures
        bit_contents(r) == msb_first_bits(bytes@),
{
    BitVec::from_bytes(bytes)
}

/// `BitVec::with_capacity`: an empty bit vector (the capacity is not stated).
#[verifier::external_body]
pub(crate) fn bv_with_capacity(capacity: usize) -> (r: BitVec)
    ensures
        bit_contents(r) == Seq::<bool>::empty(),
{
    BitVec::with_capacity(capacity)
}

/// `BitVec::get`: the bit at `i`, or `None` past the end.
#[verifier::external_body]
pub(crate) fn bv_get(v: &BitVec, i: usize) -> (r: Option<bool>)
    ensures
        i < bit_contents(*v).len() ==> r == Some(bit_contents(*v)[i as int]),
        i >= bit_contents(*v).len() ==> r is None,
{
    v.get(i)
}

/// Indexing a `BitVec` (`Index::index`): the bit at `i`, which must exist.
#[verifier::external_body]
pub(crate) fn bv_index(v: &BitVec, i: usize) -> (r: bool)
    requires
        i < bit_contents(*v).len(),
    ensures
        r == bit_contents(*v)[i as int],
{
    v[i]
}

/// `BitVec::push`: one bit added at the end.
#[verifier::external_body]
pub(crate) fn bv_push(v: &mut BitVec, elem: bool)
    requires
        bit_contents(*old(v)).len() < usize::MAX,
    ensures
        bit_contents(*final(v)) == bit_contents(*old(v)).push(elem),
{
    v.push(elem)
}

/// `BitVec::append`: the bits of `other` moved to the end of `v`.
#[verifier::external_body]
pub(crate) fn bv_append(v: &mut BitVec, other: &mut BitVec)
    requires
        bit_contents(*old(v)).len() + bit_contents(*old(other)).len() <= usize::MAX,
    ensures
        bit_contents(*final(v)) == bit_contents(*old(v)) + bit_contents(*old(other)),
        bit_contents(*final(other)) == Seq::<bool>::empty(),
{
    v.append(other)
}

/// `BitVec::truncate`: keeps the first `len` bits; no effect when `len` is
/// not below the length.
#[verifier::external_body]
pub(crate) fn bv_truncate(v: &mut BitVec, len: usize)
    ensures
        len < bit_contents(*old(v)).len() ==> bit_contents(*final(v)) == bit_contents(
            *old(v),
        ).take(len as int),
        len >= bit_contents(*old(v)).len() ==> bit_contents(*final(v)) == bit_contents(*old(v)),
{
    v.truncate(len)
}

/// `BitVec::split_off`: keeps the bits before `at` and returns the rest.
#[verifier::external_body]
pub(crate) fn bv_split_off(v: &mut BitVec, at: usize) -> (r: BitVec)
    requires
        at <= bit_contents(*old(v)).len(),
    ensures
        bit_contents(*final(v)) == bit_contents(*old(v)).take(at as int),
        bit_contents(r) == bit_contents(*old(v)).skip(at as int),
{
    v.split_off(at)
}

} // verus!
