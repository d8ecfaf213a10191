//! Structured errors: user-facing failures of the store operations, of the
//! common-games query, and of the snapshot codec. Every error is reported to
//! the caller and leaves the stores unchanged.

use vstd::prelude::*;

verus! {

/// Failure of a suggestion-store operation.
#[derive(Clone, Copy, Debug, PartialEq, Eq, Structural)]
pub enum SuggestError {
    /// An existing suggestion in the guild has a case-insensitively
    /// (trimmed) equal title.
    DuplicateTitle,
    /// No suggestion in the guild has a matching title.
    NotFound,
    /// The matching suggestion belongs to another caller.
    NotOwner,
}

/// Failure of the common-games query.
#[derive(Clone, Copy, Debug, PartialEq, Eq, Structural)]
pub enum CommonGamesError {
    /// Fewer than two requested display names resolved to guild members.
    InsufficientNames,
    /// Fewer than two resolved callers have an external-account mapping.
    InsufficientMappings,
    /// No owned-game list could be fetched for any mapped caller.
    NoListsAvailable,
    /// The intersection of the fetched lists has no members.
    EmptyIntersection,
}

/// Failure of the snapshot codec.
#[derive(Clone, Copy, Debug, PartialEq, Eq, Structural)]
pub enum SnapshotError {
    /// The persisted blob exists but does not parse back into a
    /// well-formed store.
    CorruptSnapshot,
}

} // verus!
