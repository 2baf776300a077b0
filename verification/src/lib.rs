//! A slot store: a stable-key associative container that maps caller-held
//! handles to values with constant-time insert, lookup and removal, reusing
//! freed storage slots through an internal free list.

mod bits;
mod handle;
mod store;

pub use handle::Handle;
pub use store::BvMap;
pub use store::lemma_get_after_insert;
pub use store::lemma_get_after_remove;
pub use store::lemma_insert_remove_round_trip;
