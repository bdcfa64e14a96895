//! A bit mask held in a `bitvec` bit vector, least significant bit first.

use vstd::prelude::*;
use bitvec::order::Lsb0;
use bitvec::vec::BitVec;

verus! {

/// A bit mask: a bit vector of `bitvec`, least significant bit first.
#[verifier::external_body]
pub struct Mask {
    bits: BitVec<u8, Lsb0>,
}

/// The bits that a mask holds, in index order.
pub uninterp spec fn mask_bits(m: Mask) -> Seq<bool>;

/// The most bits a mask can hold: `bitvec` counts bits in a `usize` with
/// three bits left for the position within a byte.
pub open spec fn max_bits() -> int {
    usize::MAX as int / 8
}

/// Relies on `BitVec::repeat`: `len` copies of `bit`. It panics above the
/// largest length a bit vector can encode (`usize::MAX >> 3`).
#[verifier::external_body]
pub(crate) fn mask_repeat(bit: bool, len: usize) -> (r: Mask)
    requires
        len <= max_bits(),
    ensures
        mask_bits(r) == Seq::new(len as nat, |i: int| bit),
{
    Mask { bits: BitVec::<u8, Lsb0>::repeat(bit, len) }
}

/// Relies on `BitVec::len`: the number of bits.
#[verifier::external_body]
pub(crate) fn mask_len(m: &Mask) -> (r: usize)
    ensures
        r == mask_bits(*m).len(),
{
    m.bits.len()
}

/// Relies on indexing a `BitVec`: the bit at `i`, which must be in bounds.
#[verifier::external_body]
pub(crate) fn mask_get(m: &Mask, i: usize) -> (r: bool)
    requires
        i < mask_bits(*m).len(),
    ensures
        r == mask_bits(*m)[i as int],
{
    m.bits[i]
}

/// Relies on `BitSlice::set`: writes the bit at `i`, which must be in
/// bounds, and leaves the others.
#[verifier::external_body]
pub(crate) fn mask_set(m: &mut Mask, i: usize, bit: bool)
    requires
        i < mask_bits(*old(m)).len(),
    ensures
        mask_bits(*final(m)) == mask_bits(*old(m)).update(i as int, bit),
{
    m.bits.set(i, bit)
}

impl Mask {
    /// A mask holding `bits`.
    pub fn from_bits(bits: &[bool]) -> (r: Mask)
        requires
            bits@.len() <= max_bits(),
        ensures
            mask_bits(r) == bits@,
    {
        let n = bits.len();
        let mut m = mask_repeat(false, n);
        let mut i: usize = 0;
        while i < n
            invariant
                n == bits@.len(),
                i <= n,
                mask_bits(m).len() == n,
                forall|j: int| 0 <= j < i ==> mask_bits(m)[j] == bits@[j],
            decreases n - i,
        {
            mask_set(&mut m, i, bits[i]);
            i = i + 1;
        }
        assert(mask_bits(m) =~= bits@);
        m
    }

    /// The bits of the mask, in index order.
    pub fn to_bits(&self) -> (r: Vec<bool>)
        ensures
            r@ == mask_bits(*self),
    {
        let n = mask_len(self);
        let mut r: Vec<bool> = Vec::new();
        let mut i: usize = 0;
        while i < n
            invariant
                n == mask_bits(*self).len(),
                i <= n,
                r@ == mask_bits(*self).subrange(0, i as int),
            decreases n - i,
        {
            r.push(mask_get(self, i));
            assert(r@ =~= mask_bits(*self).subrange(0, i + 1));
            i = i + 1;
        }
        assert(r@ =~= mask_bits(*self));
        r
    }
}

} // verus!
