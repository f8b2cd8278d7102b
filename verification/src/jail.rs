//! The jail itself: an immutable value holding the components of the
//! canonical, symlink-free, absolute root path, plus the containment and
//! relative-derivation checks that work on already-canonical absolute
//! paths. The embedding canonicalizes paths (an existing path's symlinks
//! are all resolvable by the operating system) and hands the canonical
//! bytes here; every decision on those bytes is verified.

use vstd::prelude::*;
use crate::bytes::{
    abs_bytes, all_normal, all_normal_check, clone_comps, comps_is_prefix, comps_to_abs,
    comps_to_rel, comps_view, contains_nul, has_nul, is_prefix_of, lemma_split_valid, rel_bytes,
    split_comps, split_path,
};
use crate::error::{ErrModel, InvalidPathReason, JailError};

verus! {

/// A filesystem sandbox rooted at a fixed canonical directory. Immutable
/// after construction; safe to share, since every operation re-derives its
/// answer from its arguments alone.
#[derive(Debug)]
pub struct Jail {
    root: Vec<Vec<u8>>,
}

/// What constructing a jail from canonical root bytes yields: the root's
/// components, or the exact rejection.
pub open spec fn construct_m(s: Seq<u8>) -> Result<Seq<Seq<u8>>, ErrModel> {
    if contains_nul(s) {
        Err(ErrModel::Invalid { reason: InvalidPathReason::NullByte })
    } else if s.len() == 0 {
        Err(ErrModel::Invalid { reason: InvalidPathReason::Empty })
    } else if s[0] != 47 {
        Err(ErrModel::Invalid { reason: InvalidPathReason::MustBeAbsolute })
    } else if !all_normal(split_comps(s)) {
        Err(ErrModel::Invalid { reason: InvalidPathReason::NotCanonical })
    } else {
        Ok(split_comps(s))
    }
}

/// The early rejection every operation on an absolute path applies before
/// any filesystem access: NUL bytes, emptiness, relative input.
pub open spec fn precheck_abs_m(s: Seq<u8>) -> Option<ErrModel> {
    if contains_nul(s) {
        Some(ErrModel::Invalid { reason: InvalidPathReason::NullByte })
    } else if s.len() == 0 {
        Some(ErrModel::Invalid { reason: InvalidPathReason::Empty })
    } else if s[0] != 47 {
        Some(ErrModel::Invalid { reason: InvalidPathReason::MustBeAbsolute })
    } else {
        None
    }
}

/// What checking a canonical absolute path against a root yields: the
/// path's components when they extend the root's, else the exact error.
pub open spec fn contains_m(root: Seq<Seq<u8>>, s: Seq<u8>) -> Result<Seq<Seq<u8>>, ErrModel> {
    if contains_nul(s) {
        Err(ErrModel::Invalid { reason: InvalidPathReason::NullByte })
    } else if s.len() == 0 {
        Err(ErrModel::Invalid { reason: InvalidPathReason::Empty })
    } else if s[0] != 47 {
        Err(ErrModel::Invalid { reason: InvalidPathReason::MustBeAbsolute })
    } else if !all_normal(split_comps(s)) {
        Err(ErrModel::Invalid { reason: InvalidPathReason::NotCanonical })
    } else if !is_prefix_of(root, split_comps(s)) {
        Err(ErrModel::Escaped { attempted: abs_bytes(split_comps(s)), root: abs_bytes(root) })
    } else {
        Ok(split_comps(s))
    }
}

/// What deriving a root-relative path yields: the byte path of the
/// components below the root (empty when the path is the root itself).
pub open spec fn relative_m(root: Seq<Seq<u8>>, s: Seq<u8>) -> Result<Seq<u8>, ErrModel> {
    match contains_m(root, s) {
        Ok(cs) => Ok(rel_bytes(cs.subrange(root.len() as int, cs.len() as int))),
        Err(e) => Err(e),
    }
}

/// Rejects malformed absolute-path input before any filesystem access:
/// an embedded NUL byte, emptiness, or a relative path.
pub fn check_absolute_input(path: &[u8]) -> (r: Result<(), JailError>)
    ensures
        match r {
            Ok(_) => precheck_abs_m(path@) is None,
            Err(e) => precheck_abs_m(path@) == Some(e@),
        },
{
    if has_nul(path) {
        return Err(JailError::InvalidPath(InvalidPathReason::NullByte));
    }
    if path.len() == 0 {
        return Err(JailError::InvalidPath(InvalidPathReason::Empty));
    }
    if path[0] != 47 {
        return Err(JailError::InvalidPath(InvalidPathReason::MustBeAbsolute));
    }
    Ok(())
}

impl Jail {
    /// The components of the canonical root.
    pub closed spec fn root_comps(&self) -> Seq<Seq<u8>> {
        comps_view(self.root@)
    }

    /// A jail is well formed when its root components are canonical.
    pub open spec fn wf(&self) -> bool {
        all_normal(self.root_comps())
    }

    /// Builds a jail from the bytes of an already-canonical absolute root
    /// path (as the operating system's canonicalization returns it), and
    /// re-validates that shape rather than trusting it.
    pub fn from_canonical_root(path: &[u8]) -> (r: Result<Jail, JailError>)
        ensures
            match r {
                Ok(j) => construct_m(path@) == Ok::<Seq<Seq<u8>>, ErrModel>(j.root_comps())
                    && j.wf(),
                Err(e) => construct_m(path@) == Err::<Seq<Seq<u8>>, ErrModel>(e@),
            },
    {
        if has_nul(path) {
            return Err(JailError::InvalidPath(InvalidPathReason::NullByte));
        }
        if path.len() == 0 {
            return Err(JailError::InvalidPath(InvalidPathReason::Empty));
        }
        if path[0] != 47 {
            return Err(JailError::InvalidPath(InvalidPathReason::MustBeAbsolute));
        }
        let comps = split_path(path);
        proof {
            lemma_split_valid(path@);
        }
        if !all_normal_check(&comps) {
            return Err(JailError::InvalidPath(InvalidPathReason::NotCanonical));
        }
        Ok(Jail { root: comps })
    }

    /// The absolute byte path of the root.
    pub fn root_bytes(&self) -> (r: Vec<u8>)
        ensures
            r@ == abs_bytes(self.root_comps()),
    {
        comps_to_abs(&self.root)
    }

    /// A fresh copy of the root's components.
    pub fn root_clone(&self) -> (r: Vec<Vec<u8>>)
        ensures
            comps_view(r@) == self.root_comps(),
    {
        clone_comps(&self.root)
    }

    /// Checks that a canonical absolute path (every component existing and
    /// symlink-free, as produced by the operating system's canonicalization)
    /// lies inside the jail, comparing decomposed components, and returns
    /// its normalized absolute bytes.
    pub fn contains_check(&self, canonical: &[u8]) -> (r: Result<Vec<u8>, JailError>)
        requires
            self.wf(),
        ensures
            match r {
                Ok(p) => contains_m(self.root_comps(), canonical@) matches Ok(cs) && p@
                    == abs_bytes(cs),
                Err(e) => contains_m(self.root_comps(), canonical@) == Err::<
                    Seq<Seq<u8>>,
                    ErrModel,
                >(e@),
            },
    {
        if has_nul(canonical) {
            return Err(JailError::InvalidPath(InvalidPathReason::NullByte));
        }
        if canonical.len() == 0 {
            return Err(JailError::InvalidPath(InvalidPathReason::Empty));
        }
        if canonical[0] != 47 {
            return Err(JailError::InvalidPath(InvalidPathReason::MustBeAbsolute));
        }
        let comps = split_path(canonical);
        proof {
            lemma_split_valid(canonical@);
        }
        if !all_normal_check(&comps) {
            return Err(JailError::InvalidPath(InvalidPathReason::NotCanonical));
        }
        if !comps_is_prefix(&self.root, &comps) {
            return Err(
                JailError::EscapedRoot {
                    attempted: comps_to_abs(&comps),
                    root: comps_to_abs(&self.root),
                },
            );
        }
        Ok(comps_to_abs(&comps))
    }

    /// Derives the root-relative byte path of a canonical absolute path
    /// inside the jail: the root's component prefix is stripped and the
    /// remainder joined (empty exactly when the path is the root).
    pub fn relative_of(&self, canonical: &[u8]) -> (r: Result<Vec<u8>, JailError>)
        requires
            self.wf(),
        ensures
            match r {
                Ok(p) => relative_m(self.root_comps(), canonical@) == Ok::<Seq<u8>, ErrModel>(
                    p@,
                ),
                Err(e) => relative_m(self.root_comps(), canonical@) == Err::<Seq<u8>, ErrModel>(
                    e@,
                ),
            },
    {
        if has_nul(canonical) {
            return Err(JailError::InvalidPath(InvalidPathReason::NullByte));
        }
        if canonical.len() == 0 {
            return Err(JailError::InvalidPath(InvalidPathReason::Empty));
        }
        if canonical[0] != 47 {
            return Err(JailError::InvalidPath(InvalidPathReason::MustBeAbsolute));
        }
        let comps = split_path(canonical);
        proof {
            lemma_split_valid(canonical@);
        }
        if !all_normal_check(&comps) {
            return Err(JailError::InvalidPath(InvalidPathReason::NotCanonical));
        }
        if !comps_is_prefix(&self.root, &comps) {
            return Err(
                JailError::EscapedRoot {
                    attempted: comps_to_abs(&comps),
                    root: comps_to_abs(&self.root),
                },
            );
        }
        let mut below: Vec<Vec<u8>> = Vec::new();
        let mut i: usize = self.root.len();
        proof {
            assert(comps_view(below@) =~= comps_view(comps@).subrange(
                self.root@.len() as int,
                self.root@.len() as int,
            ));
        }
        while i < comps.len()
            invariant
                self.root@.len() <= i <= comps@.len(),
                comps_view(below@) == comps_view(comps@).subrange(
                    self.root@.len() as int,
                    i as int,
                ),
            decreases comps@.len() - i,
        {
            let c = crate::bytes::clone_bytes(comps[i].as_slice());
            let ghost prev = below@;
            let ghost cg = c;
            below.push(c);
            proof {
                crate::bytes::lemma_comps_view_push(prev, cg);
                assert(comps_view(below@) =~= comps_view(comps@).subrange(
                    self.root@.len() as int,
                    i + 1,
                ));
            }
            i += 1;
        }
        proof {
            assert(comps_view(below@) == comps_view(comps@).subrange(
                self.root@.len() as int,
                comps@.len() as int,
            ));
        }
        Ok(comps_to_rel(&below))
    }
}

} // verus!
