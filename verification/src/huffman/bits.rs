//! Bit strings, stored in a `bitvec` vector of bytes in `Lsb0` order.

use bitvec::field::BitField;
use bitvec::order::Lsb0;
use bitvec::vec::BitVec;
use vstd::prelude::*;

verus! {

/// An ordered sequence of bits.
///
/// The storage is a `BitVec<u8, Lsb0>`; verified code sees only the sequence
/// of bits it holds, [`bit_seq`].
#[verifier::external_body]
#[derive(Debug, PartialEq, Eq)]
pub struct Bits {
    inner: BitVec<u8, Lsb0>,
}

/// The bits that a bit string holds, first to last.
pub uninterp spec fn bit_seq(b: Bits) -> Seq<bool>;

impl View for Bits {
    type V = Seq<bool>;

    open spec fn view(&self) -> Seq<bool> {
        bit_seq(*self)
    }
}

/// The largest number of bits that a bit string can hold on this machine.
pub open spec fn bit_capacity() -> nat {
    (usize::MAX / 8) as nat
}

/// One for a set bit, zero for a clear one.
pub open spec fn bit_value(bit: bool) -> nat {
    if bit {
        1
    } else {
        0
    }
}

/// The number that a run of bits spells when the first bit is the least
/// significant one.
pub open spec fn lsb_value(bits: Seq<bool>) -> nat
    decreases bits.len(),
{
    if bits.len() == 0 {
        0
    } else {
        bit_value(bits[0]) + 2 * lsb_value(bits.drop_first())
    }
}

/// Bit `k` of a byte, counted from the least significant end.
pub open spec fn byte_bit(byte: u8, k: int) -> bool {
    (byte as int / pow2_small(k)) % 2 == 1
}

/// `2^k` for the bit positions of a byte.
pub open spec fn pow2_small(k: int) -> int {
    if k <= 0 {
        1
    } else if k == 1 {
        2
    } else if k == 2 {
        4
    } else if k == 3 {
        8
    } else if k == 4 {
        16
    } else if k == 5 {
        32
    } else if k == 6 {
        64
    } else {
        128
    }
}

/// The bits of a byte string: eight per byte, each byte least significant bit
/// first.
pub open spec fn unpack(bytes: Seq<u8>) -> Seq<bool> {
    Seq::new(8 * bytes.len(), |i: int| byte_bit(bytes[i / 8], i % 8))
}

/// The bytes of a bit string whose length is a multiple of eight: each run of
/// eight bits is one byte, first bit least significant.
pub open spec fn pack(bits: Seq<bool>) -> Seq<u8> {
    Seq::new(bits.len() / 8, |j: int| lsb_value(bits.subrange(8 * j, 8 * j + 8)) as u8)
}

/// What eight bits spell: each bit counts for the power of two of its
/// position.
pub proof fn lemma_lsb_value_of_eight(bits: Seq<bool>)
    requires
        bits.len() == 8,
    ensures
        lsb_value(bits) == bit_value(bits[0]) + 2 * bit_value(bits[1]) + 4 * bit_value(bits[2])
            + 8 * bit_value(bits[3]) + 16 * bit_value(bits[4]) + 32 * bit_value(bits[5]) + 64
            * bit_value(bits[6]) + 128 * bit_value(bits[7]),
        lsb_value(bits) < 256,
{
    let s1 = bits.drop_first();
    let s2 = s1.drop_first();
    let s3 = s2.drop_first();
    let s4 = s3.drop_first();
    let s5 = s4.drop_first();
    let s6 = s5.drop_first();
    let s7 = s6.drop_first();
    let s8 = s7.drop_first();
    assert(lsb_value(s8) == 0);
    assert(lsb_value(s7) == bit_value(bits[7]) + 2 * lsb_value(s8));
    assert(lsb_value(s6) == bit_value(bits[6]) + 2 * lsb_value(s7));
    assert(lsb_value(s5) == bit_value(bits[5]) + 2 * lsb_value(s6));
    assert(lsb_value(s4) == bit_value(bits[4]) + 2 * lsb_value(s5));
    assert(lsb_value(s3) == bit_value(bits[3]) + 2 * lsb_value(s4));
    assert(lsb_value(s2) == bit_value(bits[2]) + 2 * lsb_value(s3));
    assert(lsb_value(s1) == bit_value(bits[1]) + 2 * lsb_value(s2));
    assert(lsb_value(bits) == bit_value(bits[0]) + 2 * lsb_value(s1));
}

/// Each bit of the byte that eight bits spell is the bit at that position.
pub proof fn lemma_byte_bits(bits: Seq<bool>, k: int)
    requires
        bits.len() == 8,
        0 <= k < 8,
    ensures
        byte_bit(lsb_value(bits) as u8, k) == bits[k],
{
    lemma_lsb_value_of_eight(bits);
}

/// Unpacking gives back the bits that were packed.
pub proof fn lemma_unpack_pack(bits: Seq<bool>)
    requires
        bits.len() % 8 == 0,
    ensures
        unpack(pack(bits)) == bits,
{
    let bytes = pack(bits);
    assert(unpack(bytes).len() == bits.len());
    assert forall|i: int| 0 <= i < bits.len() implies unpack(bytes)[i] == bits[i] by {
        let j = i / 8;
        let k = i % 8;
        let run = bits.subrange(8 * j, 8 * j + 8);
        lemma_byte_bits(run, k);
        assert(run[k] == bits[i]);
    }
    assert(unpack(bytes) =~= bits);
}

/// `BitVec::new`: a bit string that holds no bits.
#[verifier::external_body]
pub(crate) fn raw_new() -> (b: Bits)
    ensures
        bit_seq(b) == Seq::<bool>::empty(),
{
    Bits { inner: BitVec::new() }
}

/// `BitVec::len`: the number of bits held.
#[verifier::external_body]
pub(crate) fn raw_len(b: &Bits) -> (n: usize)
    ensures
        n == bit_seq(*b).len(),
{
    b.inner.len()
}

/// `BitVec::push`: appends one bit. `bitvec` panics when the new length would
/// pass its `MAX_BITS`, which is `usize::MAX >> 3`.
#[verifier::external_body]
pub(crate) fn raw_push(b: &mut Bits, bit: bool)
    requires
        bit_seq(*old(b)).len() < bit_capacity(),
    ensures
        bit_seq(*final(b)) == bit_seq(*old(b)).push(bit),
{
    b.inner.push(bit)
}

/// Indexing a `BitVec`: the bit at position `i`. `bitvec` panics when `i` is
/// out of range.
#[verifier::external_body]
pub(crate) fn raw_get(b: &Bits, i: usize) -> (bit: bool)
    requires
        i < bit_seq(*b).len(),
    ensures
        bit == bit_seq(*b)[i as int],
{
    b.inner[i]
}

/// `Clone` of a `BitVec`: a bit string with the same bits.
#[verifier::external_body]
pub(crate) fn raw_clone(b: &Bits) -> (c: Bits)
    ensures
        bit_seq(c) == bit_seq(*b),
{
    Bits { inner: b.inner.clone() }
}

/// `BitVec::extend_from_bitslice`: appends the bits of `tail`. `bitvec` panics
/// when the new length would pass `usize::MAX >> 3`.
#[verifier::external_body]
pub(crate) fn raw_append(b: &mut Bits, tail: &Bits)
    requires
        bit_seq(*old(b)).len() + bit_seq(*tail).len() <= bit_capacity(),
    ensures
        bit_seq(*final(b)) == bit_seq(*old(b)) + bit_seq(*tail),
{
    b.inner.extend_from_bitslice(tail.inner.as_bitslice())
}

/// `BitVec::from_vec` in `Lsb0` order: bit `i` of the result is bit `i % 8` of
/// byte `i / 8`, counted from the least significant end. `bitvec` panics when
/// the bytes hold more than `usize::MAX >> 3` bits.
#[verifier::external_body]
pub(crate) fn raw_from_bytes(bytes: Vec<u8>) -> (b: Bits)
    requires
        8 * bytes@.len() <= bit_capacity(),
    ensures
        bit_seq(b) == unpack(bytes@),
{
    Bits { inner: BitVec::from_vec(bytes) }
}

/// `BitField::load_le` on the bits from `start` up to `end`: the number they
/// spell with the first bit least significant. `bitvec` panics on an empty
/// range, on one wider than the integer, and on one out of bounds.
#[verifier::external_body]
pub(crate) fn raw_load(b: &Bits, start: usize, end: usize) -> (byte: u8)
    requires
        start < end <= bit_seq(*b).len(),
        end - start <= 8,
    ensures
        byte == lsb_value(bit_seq(*b).subrange(start as int, end as int)),
{
    b.inner[start..end].load_le::<u8>()
}

impl Bits {
    /// A bit string that holds no bits.
    pub fn new() -> (b: Bits)
        ensures
            b@ == Seq::<bool>::empty(),
    {
        raw_new()
    }

    /// The number of bits held.
    pub fn len(&self) -> (n: usize)
        ensures
            n == self@.len(),
    {
        raw_len(self)
    }

    /// The bit at position `i`, if there is one.
    pub fn get(&self, i: usize) -> (bit: Option<bool>)
        ensures
            bit == if i < self@.len() {
                Some(self@[i as int])
            } else {
                None
            },
    {
        if i < raw_len(self) {
            Some(raw_get(self, i))
        } else {
            None
        }
    }

    /// The bit string that holds `bits`, unless they are more than a bit
    /// string can hold.
    pub fn from_slice(bits: &[bool]) -> (b: Option<Bits>)
        ensures
            b is Some <==> bits@.len() <= bit_capacity(),
            b matches Some(held) ==> held@ == bits@,
    {
        if bits.len() > usize::MAX / 8 {
            return None;
        }
        let mut held = raw_new();
        let mut i: usize = 0;
        while i < bits.len()
            invariant
                i <= bits.len(),
                bits@.len() <= bit_capacity(),
                held@ == bits@.take(i as int),
            decreases bits.len() - i,
        {
            raw_push(&mut held, bits[i]);
            assert(bits@.take(i + 1) == bits@.take(i as int).push(bits@[i as int]));
            i = i + 1;
        }
        assert(bits@.take(bits@.len() as int) == bits@);
        Some(held)
    }

    /// The bits held, one `bool` each.
    pub fn to_vec(&self) -> (bits: Vec<bool>)
        ensures
            bits@ == self@,
    {
        let n = raw_len(self);
        let mut bits: Vec<bool> = Vec::new();
        let mut i: usize = 0;
        while i < n
            invariant
                i <= n,
                n == self@.len(),
                bits@ == self@.take(i as int),
            decreases n - i,
        {
            bits.push(raw_get(self, i));
            assert(self@.take(i + 1) == self@.take(i as int).push(self@[i as int]));
            i = i + 1;
        }
        assert(self@.take(n as int) == self@);
        bits
    }
}

} // verus!
