//! Trusted boundary to the `smallbitvec` crate, which stores the occupancy
//! bitmap: one bit per slot, packed into a single word or a heap buffer.

use vstd::prelude::*;
use smallbitvec::SmallBitVec;

verus! {

/// The bits a `SmallBitVec` holds, in index order.
pub uninterp spec fn bits_of(v: SmallBitVec) -> Seq<bool>;

#[verifier::external_type_specification]
#[verifier::external_body]
pub struct ExSmallBitVec(SmallBitVec);

/// Relies on `SmallBitVec::new`: creates an empty bit vector.
pub assume_specification[ SmallBitVec::new ]() -> (r: SmallBitVec)
    ensures
        bits_of(r) == Seq::<bool>::empty(),
;

/// Relies on `SmallBitVec::len`: the number of bits stored.
pub assume_specification[ SmallBitVec::len ](v: &SmallBitVec) -> (r: usize)
    ensures
        r == bits_of(*v).len(),
;

/// Relies on `SmallBitVec::get`: the nth bit, or nothing when `n` is out of
/// range.
pub assume_specification[ SmallBitVec::get ](v: &SmallBitVec, n: usize) -> (r: Option<bool>)
    ensures
        r == (if n < bits_of(*v).len() {
            Some(bits_of(*v)[n as int])
        } else {
            None::<bool>
        }),
;

/// Relies on `SmallBitVec::set`: overwrites the nth bit. The source panics on
/// an out-of-range index, so that case is excluded here.
pub assume_specification[ SmallBitVec::set ](v: &mut SmallBitVec, n: usize, val: bool)
    requires
        n < bits_of(*old(v)).len(),
    ensures
        bits_of(*final(v)) == bits_of(*old(v)).update(n as int, val),
;

/// Relies on `SmallBitVec::push`: appends one bit at the end. Growing the
/// backing storage aborts if memory runs out, as `Vec`'s growth does.
pub assume_specification[ SmallBitVec::push ](v: &mut SmallBitVec, val: bool)
    requires
        bits_of(*old(v)).len() < usize::MAX,
    ensures
        bits_of(*final(v)) == bits_of(*old(v)).push(val),
;

/// Relies on `<SmallBitVec as Clone>::clone`: the copy holds the same bits.
pub assume_specification[ <SmallBitVec as Clone>::clone ](v: &SmallBitVec) -> (r: SmallBitVec)
    ensures
        bits_of(r) == bits_of(*v),
;

} // verus!
