//! The error taxonomy: a closed sum type with per-kind payloads, so that
//! callers branch on the kind of denial, never on message text.

use vstd::prelude::*;

verus! {

/// Why a path value was rejected before (or without) any filesystem work.
#[derive(Clone, Copy, Debug, PartialEq, Eq, Structural)]
pub enum InvalidPathReason {
    /// The path holds an embedded NUL byte.
    NullByte,
    /// The path is empty.
    Empty,
    /// An absolute path was given where a relative one is required.
    MustBeRelative,
    /// A relative path was given where an absolute one is required.
    MustBeAbsolute,
    /// A path expected to be canonical still holds a `.` or `..` component.
    NotCanonical,
    /// The walk followed more symlinks than the fixed bound allows.
    SymlinkChainTooLong,
}

/// The class of a filesystem query failure, as reported by the embedding.
#[derive(Clone, Copy, Debug, PartialEq, Eq, Structural)]
pub enum IoFailure {
    /// A path that had to exist was not found.
    NotFound,
    /// A query was denied by the operating system.
    PermissionDenied,
    /// The jail root is not a directory.
    NotADirectory,
    /// Any other filesystem failure.
    Other,
}

/// The mathematical image of a [`JailError`]: payload paths as byte sequences.
pub enum ErrModel {
    Escaped { attempted: Seq<u8>, root: Seq<u8> },
    Broken { at: Seq<u8> },
    Invalid { reason: InvalidPathReason },
    Io { failure: IoFailure },
}

/// Everything that can go wrong while resolving or checking a path.
///
/// `EscapedRoot`, `BrokenSymlink` and `InvalidPath` are hard denials;
/// `Io` is an operational failure of the underlying filesystem query.
#[derive(Debug, PartialEq, Eq)]
pub enum JailError {
    /// The resolved path is not a descendant of the jail root; carries the
    /// offending absolute path and the root, both for diagnostics.
    EscapedRoot { attempted: Vec<u8>, root: Vec<u8> },
    /// A symlink at this absolute path cannot be verified to stay inside
    /// the root (its target is missing, or would leave the root).
    BrokenSymlink(Vec<u8>),
    /// The input was malformed; see the reason.
    InvalidPath(InvalidPathReason),
    /// A filesystem query failed for a reason unrelated to containment.
    Io(IoFailure),
}

impl View for JailError {
    type V = ErrModel;

    open spec fn view(&self) -> ErrModel {
        match self {
            JailError::EscapedRoot { attempted, root } => ErrModel::Escaped {
                attempted: attempted@,
                root: root@,
            },
            JailError::BrokenSymlink(at) => ErrModel::Broken { at: at@ },
            JailError::InvalidPath(reason) => ErrModel::Invalid { reason: *reason },
            JailError::Io(failure) => ErrModel::Io { failure: *failure },
        }
    }
}

} // verus!
