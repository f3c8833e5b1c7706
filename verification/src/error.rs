//! What an operation on a collection can fail with.

use vstd::prelude::*;

verus! {

#[derive(Clone, Copy, Debug, PartialEq, Eq, Structural)]
/// What reading, saving or linking can fail with.
pub enum StorageError {
    /// No record is kept under the primary key.
    NotFound,
    /// A unique index already maps the derived key to another primary key.
    Conflict,
    /// Stored bytes are not what the layout asks for.
    DecodeError,
    /// An address was named as its own referrer.
    SelfReference,
    /// The address already has a referrer.
    DuplicateReferral,
}

} // verus!
