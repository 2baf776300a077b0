//! Caller-facing handles. A handle is an opaque stand-in for one dense slot
//! index, convertible to and from that index by a total, lossless bijection,
//! so callers may use their own newtypes as keys.

use vstd::prelude::*;

verus! {

/// A handle stands for exactly one dense slot index.
///
/// A handle is valid only while its index stays occupied; once the entry is
/// removed, a stale copy may later silently address a different, reinserted
/// value. The store does not detect stale handles.
pub trait Handle: Sized {
    /// The index this handle stands for.
    spec fn index(&self) -> usize;

    /// Builds the handle that stands for index `i`.
    fn from_index(i: usize) -> (k: Self)
        ensures
            k.index() == i,
    ;

    /// Recovers the index this handle stands for.
    fn into_index(self) -> (i: usize)
        ensures
            i == self.index(),
    ;
}

impl Handle for usize {
    open spec fn index(&self) -> usize {
        *self
    }

    fn from_index(i: usize) -> (k: Self) {
        i
    }

    fn into_index(self) -> (i: usize) {
        self
    }
}

} // verus!
