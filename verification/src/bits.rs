//! Trusted boundary around the `bitvec` crate.
//!
//! A generation buffer is a `bitvec::vec::BitVec`. Verus cannot take that
//! type's declaration (its generic bounds are foreign traits), so the
//! vector is held in an opaque struct and modeled by the sequence of
//! booleans it holds, named by `bits_of`; the few operations the grid
//! needs are wrapped here with contracts over that model.

use vstd::prelude::*;

verus! {

/// A fixed-length bit buffer, backed by `bitvec::vec::BitVec`.
#[verifier::external_body]
pub struct BitBuf {
    bits: bitvec::vec::BitVec,
}

/// The bits held by a bit buffer, in index order.
pub uninterp spec fn bits_of(v: BitBuf) -> Seq<bool>;

/// Relies on `BitVec::repeat`: a bit-vector of `len` copies of `bit`.
/// `repeat` panics when `len` exceeds the crate's region limit of
/// `usize::MAX / 8` bits; the precondition stays well within it.
#[verifier::external_body]
pub(crate) fn bits_repeat(bit: bool, len: usize) -> (r: BitBuf)
    requires
        len <= usize::MAX / 64,
    ensures
        bits_of(r).len() == len,
        forall|i: int| 0 <= i < len ==> bits_of(r)[i] == bit,
{
    BitBuf { bits: bitvec::vec::BitVec::repeat(bit, len) }
}

/// Relies on `Index<usize>` for `BitSlice` (through `BitVec`'s deref): the
/// bit at position `i`. Indexing panics out of bounds, which the
/// precondition rules out.
#[verifier::external_body]
pub(crate) fn bit_at(v: &BitBuf, i: usize) -> (r: bool)
    requires
        i < bits_of(*v).len(),
    ensures
        r == bits_of(*v)[i as int],
{
    v.bits[i]
}

/// Relies on `BitSlice::set` (through `BitVec`'s deref): writes the bit at
/// position `i`, leaving every other bit as it was. `set` panics out of
/// bounds, which the precondition rules out.
#[verifier::external_body]
pub(crate) fn bit_set(v: &mut BitBuf, i: usize, value: bool)
    requires
        i < bits_of(*old(v)).len(),
    ensures
        bits_of(*final(v)) == bits_of(*old(v)).update(i as int, value),
{
    v.bits.set(i, value);
}

} // verus!
