//! Error taxonomy of the statistics pipeline.
//!
//! Input validation failures (`InvalidRepositoryUrl`) are reported before any
//! network activity.  Transport failures (`FetchError`) and content decoding
//! failures (`DecodeError`) short-circuit a running pipeline.  `Unreachable`
//! marks internal-invariant violations: a driver handed an event that no
//! well-behaved run can produce.  They are surfaced distinctly, never
//! swallowed.  A truncated tree listing is no error here: the walker repairs
//! it by listing the deferred directories one by one.

use vstd::prelude::*;

verus! {

/// Why a repository URL was rejected: the origin did not match or the path
/// was absent, the owner segment was empty, or the repository segment was
/// missing or empty.
#[derive(Debug, Clone, Copy, PartialEq, Eq, Structural)]
pub enum InvalidRepositoryUrl {
    CannotBeBase,
    CannotFindOwner,
    CannotFindRepo,
}

/// A transport-level failure while fetching one path.  Under the fail-fast
/// policy the first such failure aborts the whole pipeline.
#[derive(Debug, Clone, PartialEq, Eq)]
pub struct FetchError {
    /// The blob path whose fetch failed.
    pub path: String,
    /// The transport's own description of the failure.
    pub message: String,
}

/// A failure while decoding fetched content.  Invalid base64 is fatal for the
/// file; invalid UTF-8 is repaired by lossy replacement and is never an error.
#[derive(Debug, Clone, Copy, PartialEq, Eq, Structural)]
pub enum DecodeError {
    InvalidBase64,
}

/// An internal-invariant violation: the driver reported a completion for a
/// fetch slot that was never dispatched, or reported one slot twice.
#[derive(Debug, Clone, Copy, PartialEq, Eq, Structural)]
pub enum Unreachable {
    UnknownFetchSlot,
    FetchSlotAlreadyFilled,
}

/// Any terminal error of the statistics pipeline.
#[derive(Debug, Clone, PartialEq, Eq)]
pub enum Error {
    InvalidUrl(InvalidRepositoryUrl),
    Fetch(FetchError),
    Decode(DecodeError),
    Internal(Unreachable),
}

} // verus!
