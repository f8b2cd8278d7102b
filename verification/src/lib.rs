//! A filesystem sandbox library: it validates and resolves untrusted relative
//! path strings against a trusted root directory, so that every path it hands
//! back is guaranteed to lie beneath that root, even in the presence of
//! symlinks, `..` segments, and trailing components that do not exist yet.
//!
//! Paths are handled as byte strings split into `/`-separated components.
//! The symlink-aware walk is an explicit, depth-bounded state machine
//! ([`walk::Walk`]): the embedding performs one filesystem probe per step
//! (an `lstat`/`readlink` equivalent) and feeds the answer back as a plain
//! [`walk::FsEvent`]; every decision taken on that answer lives here and is
//! verified. Containment is always decided on decomposed path components,
//! never on raw string prefixes.

pub mod bytes;
pub mod error;
pub mod model;
pub mod jail;
pub mod walk;
pub mod laws;
