//! Stateless verkle-style state-transition verification.
//!
//! The crate models field scalars and curve points by their canonical byte
//! encodings and proves the surrounding logic: the Pedersen-style vector
//! committer, the commitment hasher, the O(1) incremental commitment
//! updater, the tree-key deriver, and the batch proof-verify-and-apply
//! protocol. The underlying Bandersnatch field and group arithmetic is
//! supplied by the arkworks crates through a small set of trusted wrappers.
use vstd::prelude::*;

pub mod scalar_field;
pub mod element;
pub mod committer;
pub mod stateless;

verus! {

/// One error kind per failure mode; every operation is total and returns
/// either a success value or exactly one of these.
#[derive(Clone, Copy, Debug, PartialEq, Eq, Structural)]
pub enum VerkleError {
    /// A byte string of the wrong length, or an invalid field or group encoding.
    InputDecoding,
    /// More than 256 scalars handed to a commitment operation.
    Capacity,
    /// The parallel key/old/new arrays differ in length.
    LengthMismatch,
    /// The proof blob is malformed.
    ProofDecoding,
    /// The proof is well-formed but inconsistent with the pre-state root.
    ProofInvalid,
    /// A claimed old value disagrees with what the proof attests.
    InconsistentPreState,
    /// A commitment index outside [0, 256).
    OutOfRange,
}

} // verus!
