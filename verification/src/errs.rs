//! The error taxonomy of the collection layer.

use vstd::prelude::*;

verus! {

/// Every failure a collection operation can report to its caller.
///
/// `CorruptState` signals that persisted metadata claims an element exists
/// while the store has no usable entry for it: a broken invariant, never a
/// normal miss.
#[derive(Clone, Copy, PartialEq, Eq, Structural, Debug)]
pub enum StoreError {
    /// A `List` access past its length.
    IndexOutOfRange,
    /// A nested-map access under a key that was never initialized.
    NotInitialized,
    /// A strict re-initialization of an already-initialized nested key.
    AlreadyInitialized,
    /// A prefix that is already registered, or that is a byte-prefix of a
    /// registered one (or the other way round).
    PrefixCollision,
    /// Persisted metadata names an element the store cannot produce.
    CorruptState,
}

} // verus!
