//! Failure taxonomy of the audit store.
//!
//! Empty lookup results are not errors: queries return empty collections or
//! `None` instead of raising. The one failure this layer itself produces is a
//! collision with a uniqueness constraint on a flush-record insert, which must
//! stay distinguishable from any other failure so that callers can treat
//! "already flushed" specially.

use vstd::prelude::*;

verus! {

/// An error surfaced synchronously to the immediate caller; never retried and
/// never logged inside this layer.
#[derive(Clone, Copy, Debug, PartialEq, Eq, Structural)]
pub enum BotError {
    /// A write collided with a unique column: the duplicate key on a flush
    /// record insert.
    ConstraintViolation,
}

} // verus!
