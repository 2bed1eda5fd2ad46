//! A vector of bits, kept by the `bitvec` crate.

use vstd::prelude::*;
use bitvec::order::Lsb0;
use bitvec::vec::BitVec;

verus! {

/// A bit vector of the `bitvec` crate.
#[verifier::external_body]
pub struct Bits {
    bits: BitVec<usize, Lsb0>,
}

/// The bits that a bit vector holds, first to last.
pub uninterp spec fn bits_of(bits: Bits) -> Seq<bool>;

/// `BitVec::repeat`: a bit vector of `len` bits, each of them `bit`. The
/// crate refuses a length over a limit that is at least the one required
/// here.
#[verifier::external_body]
pub(crate) fn bits_repeat(bit: bool, len: usize) -> (bits: Bits)
    requires
        len <= 0x1fff_ffff,
    ensures
        bits_of(bits) == Seq::new(len as nat, |i: int| bit),
{
    Bits { bits: BitVec::repeat(bit, len) }
}

/// `BitSlice::set`, reached through the bit vector: writes `value` at
/// `index` and leaves the other bits as they are. The crate refuses an index
/// past the end.
#[verifier::external_body]
pub(crate) fn bits_set(bits: &mut Bits, index: usize, value: bool)
    requires
        index < bits_of(*old(bits)).len(),
    ensures
        bits_of(*final(bits)) == bits_of(*old(bits)).update(index as int, value),
{
    bits.bits.set(index, value)
}

/// Indexing a bit vector with `[]`: the bit at `index`. The crate refuses an
/// index past the end.
#[verifier::external_body]
pub(crate) fn bits_get(bits: &Bits, index: usize) -> (bit: bool)
    requires
        index < bits_of(*bits).len(),
    ensures
        bit == bits_of(*bits)[index as int],
{
    bits.bits[index]
}

} // verus!
