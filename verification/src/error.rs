//! Error taxonomy of the engine.
//!
//! Decode errors are recoverable and signal malformed textual or structural
//! input; bounds errors reject positions outside the current visible length
//! before any state mutation; causality errors reject batches whose
//! dependencies are inconsistent with the committed log; detached-editing and
//! counter-exhaustion errors reject local edits the document cannot accept.

use vstd::prelude::*;

verus! {

#[derive(Clone, Copy, PartialEq, Eq, Structural, Debug)]
pub enum LoroError {
    /// Malformed textual identifier or malformed batch structure.
    DecodeError,
    /// A position or length outside the current visible bounds.
    OutOfBound,
    /// A batch overlaps the committed log inconsistently.
    CausalityError,
    /// A local edit was attempted while the document is checked out to a
    /// frontier other than the latest one.
    DetachedEditing,
    /// The per-peer counter or the Lamport clock would overflow.
    CounterOverflow,
    /// A checkout target references an identifier the document does not know.
    FrontierNotFound,
    /// A local edit or commit was attempted with no transaction open.
    TransactionInactive,
    /// An operation that needs exclusive access was attempted while a
    /// transaction is open.
    TransactionActive,
}

pub type LoroResult<T> = Result<T, LoroError>;

} // verus!
