//! The executable symlink-aware walk. The embedding drives it: while
//! [`Walk::next_probe`] names a pending absolute path, the embedding asks
//! the filesystem about that path (an `lstat`/`readlink` equivalent) and
//! hands the answer back through [`Walk::feed`] as a plain [`FsEvent`].
//! Every transition is proved equal to the model's [`step_m`], and a
//! finished walk is proved to lie inside the root whatever the filesystem
//! answered.

use vstd::prelude::*;
use crate::bytes::{
    abs_bytes, all_normal, all_valid, clone_bytes, clone_comps, comps_is_prefix, comps_to_abs,
    comps_view, has_nul, is_dot, is_dotdot, is_prefix_of, lemma_comps_view_push,
    lemma_comps_view_remove0, lemma_comps_view_subrange, lemma_split_valid, normal_component,
    split_path, valid_component,
};
use crate::error::{InvalidPathReason, JailError};
use crate::jail::Jail;
use crate::model::{
    advance_m, settle_spec, start_m, step_m, step_push, wf_m, EventModel, OutcomeModel, Settled,
    WalkModel, MAX_FOLLOWS,
};

verus! {

/// One filesystem answer about the pending path of a walk.
pub enum FsEvent {
    /// The path does not exist and is not a symlink.
    Missing,
    /// The path exists and is not a symlink.
    Present,
    /// The path is a symlink with this literal target; `target_exists`
    /// says whether following the whole chain reaches an existing file.
    Symlink { target: Vec<u8>, target_exists: bool },
}

impl View for FsEvent {
    type V = EventModel;

    open spec fn view(&self) -> EventModel {
        match self {
            FsEvent::Missing => EventModel::Missing,
            FsEvent::Present => EventModel::Present,
            FsEvent::Symlink { target, target_exists } => EventModel::Symlink {
                target: target@,
                target_exists: *target_exists,
            },
        }
    }
}

/// The state of one in-progress resolution.
#[derive(Debug)]
pub struct Walk {
    root: Vec<Vec<u8>>,
    resolved: Vec<Vec<u8>>,
    remaining: Vec<Vec<u8>>,
    follows: u64,
}

impl Walk {
    /// The root components this walk is checked against.
    pub closed spec fn root_m(&self) -> Seq<Seq<u8>> {
        comps_view(self.root@)
    }

    /// The walk's state in the model.
    pub closed spec fn m(&self) -> WalkModel {
        WalkModel {
            resolved: comps_view(self.resolved@),
            remaining: comps_view(self.remaining@),
            follows: self.follows as nat,
        }
    }

    /// Well-formedness at every public boundary.
    pub open spec fn wf(&self) -> bool {
        all_normal(self.root_m()) && wf_m(self.root_m(), self.m())
    }

    /// The walk is finished: no components remain to process.
    pub open spec fn done(&self) -> bool {
        self.m().remaining.len() == 0
    }

    /// Consumes pending `.`/`..` components (and, in lexical mode, every
    /// component), checking containment after each step, exactly as
    /// `advance_m` describes.
    fn settle(&mut self, lexical: bool) -> (r: Result<(), JailError>)
        requires
            all_normal(old(self).root_m()),
            all_normal(old(self).m().resolved),
            all_valid(old(self).m().remaining),
            old(self).m().follows <= MAX_FOLLOWS as nat,
        ensures
            final(self).root_m() == old(self).root_m(),
            match advance_m(
                old(self).root_m(),
                old(self).m().resolved,
                old(self).m().remaining,
                lexical,
                old(self).m().follows,
            ) {
                OutcomeModel::Next(m2) => r is Ok && final(self).m() == m2 && wf_m(
                    final(self).root_m(),
                    final(self).m(),
                ) && (lexical ==> m2.remaining.len() == 0),
                OutcomeModel::Fail(em) => r matches Err(e) && e@ == em,
            },
    {
        let mut stop = false;
        while !stop && self.remaining.len() > 0
            invariant
                self.root_m() == old(self).root_m(),
                all_normal(old(self).root_m()),
                all_normal(self.m().resolved),
                all_valid(self.m().remaining),
                self.m().follows == old(self).m().follows,
                old(self).m().follows <= MAX_FOLLOWS as nat,
                settle_spec(
                    old(self).root_m(),
                    old(self).m().resolved,
                    old(self).m().remaining,
                    lexical,
                ) == settle_spec(
                    old(self).root_m(),
                    self.m().resolved,
                    self.m().remaining,
                    lexical,
                ),
                stop ==> self.m().remaining.len() > 0 && !lexical
                    && normal_component(self.m().remaining[0]),
            decreases self.remaining@.len(), (if stop { 0int } else { 1int }),
        {
            let ghost rootm = old(self).root_m();
            let ghost resm = self.m().resolved;
            let ghost remm = self.m().remaining;
            proof {
                assert(remm[0] == self.remaining@[0]@);
            }
            if is_dot(self.remaining[0].as_slice()) {
                let ghost remv = self.remaining@;
                let _ = self.remaining.remove(0);
                proof {
                    lemma_comps_view_remove0(remv);
                    assert(settle_spec(rootm, resm, remm, lexical) == settle_spec(
                        rootm,
                        resm,
                        remm.drop_first(),
                        lexical,
                    ));
                }
            } else if is_dotdot(self.remaining[0].as_slice()) {
                let ghost remv = self.remaining@;
                let _ = self.remaining.remove(0);
                proof {
                    lemma_comps_view_remove0(remv);
                }
                if self.resolved.len() > 0 {
                    let ghost resv = self.resolved@;
                    let _ = self.resolved.pop();
                    proof {
                        lemma_comps_view_subrange(resv, 0, resv.len() - 1);
                        assert(comps_view(self.resolved@) =~= resm.drop_last());
                    }
                }
                let ghost up = self.m().resolved;
                if !comps_is_prefix(&self.root, &self.resolved) {
                    let attempted = comps_to_abs(&self.resolved);
                    let rootp = comps_to_abs(&self.root);
                    proof {
                        assert(settle_spec(rootm, resm, remm, lexical) == Settled::Escaped {
                            attempted: up,
                        });
                    }
                    return Err(JailError::EscapedRoot { attempted, root: rootp });
                }
                proof {
                    assert(settle_spec(rootm, resm, remm, lexical) == settle_spec(
                        rootm,
                        up,
                        remm.drop_first(),
                        lexical,
                    ));
                    assert forall|k: int| 0 <= k < up.len() implies normal_component(
                        #[trigger] up[k],
                    ) by {
                        assert(up[k] == resm[k]);
                    }
                }
            } else if lexical {
                let ghost remv = self.remaining@;
                let c = self.remaining.remove(0);
                let ghost resv = self.resolved@;
                let ghost cg = c;
                self.resolved.push(c);
                proof {
                    lemma_comps_view_remove0(remv);
                    lemma_comps_view_push(resv, cg);
                    assert(comps_view(self.resolved@) == resm.push(remm[0]));
                }
                let ghost down = self.m().resolved;
                if !comps_is_prefix(&self.root, &self.resolved) {
                    let attempted = comps_to_abs(&self.resolved);
                    let rootp = comps_to_abs(&self.root);
                    proof {
                        assert(settle_spec(rootm, resm, remm, lexical) == Settled::Escaped {
                            attempted: down,
                        });
                    }
                    return Err(JailError::EscapedRoot { attempted, root: rootp });
                }
                proof {
                    assert(settle_spec(rootm, resm, remm, lexical) == settle_spec(
                        rootm,
                        down,
                        remm.drop_first(),
                        lexical,
                    ));
                    assert(valid_component(remm[0]));
                    assert forall|k: int| 0 <= k < down.len() implies normal_component(
                        #[trigger] down[k],
                    ) by {
                        if k < resm.len() {
                            assert(down[k] == resm[k]);
                        } else {
                            assert(down[k] == remm[0]);
                        }
                    }
                }
            } else {
                proof {
                    assert(valid_component(remm[0]));
                }
                stop = true;
            }
        }
        let ghost rootm = old(self).root_m();
        if !stop {
            proof {
                assert(self.m().remaining.len() == 0);
                assert(settle_spec(rootm, self.m().resolved, self.m().remaining, lexical)
                    == Settled::At {
                    resolved: self.m().resolved,
                    remaining: self.m().remaining,
                });
            }
            if !comps_is_prefix(&self.root, &self.resolved) {
                let attempted = comps_to_abs(&self.resolved);
                let rootp = comps_to_abs(&self.root);
                return Err(JailError::EscapedRoot { attempted, root: rootp });
            }
        }
        proof {
            assert(settle_spec(
                rootm,
                old(self).m().resolved,
                old(self).m().remaining,
                lexical,
            ) == Settled::At {
                resolved: self.m().resolved,
                remaining: self.m().remaining,
            });
        }
        Ok(())
    }

    /// The absolute byte path the embedding must probe next, or `None`
    /// when the walk is finished.
    pub fn next_probe(&self) -> (r: Option<Vec<u8>>)
        requires
            self.wf(),
        ensures
            match r {
                None => self.done(),
                Some(p) => !self.done() && p@ == abs_bytes(
                    self.m().resolved.push(self.m().remaining[0]),
                ),
            },
    {
        if self.remaining.len() == 0 {
            return None;
        }
        let mut pending = clone_comps(&self.resolved);
        let c = clone_bytes(self.remaining[0].as_slice());
        let ghost prev = pending@;
        let ghost cg = c;
        pending.push(c);
        proof {
            lemma_comps_view_push(prev, cg);
            assert(comps_view(pending@) == self.m().resolved.push(self.m().remaining[0]));
        }
        Some(comps_to_abs(&pending))
    }

    /// Finishes the walk: hands out the resolved absolute byte path, which
    /// is proved to have the root's components as a prefix — whatever
    /// events the filesystem produced along the way.
    pub fn finish(self) -> (r: Vec<u8>)
        requires
            self.wf(),
            self.done(),
        ensures
            r@ == abs_bytes(self.m().resolved),
            is_prefix_of(self.root_m(), self.m().resolved),
    {
        comps_to_abs(&self.resolved)
    }

    /// One transition on a filesystem answer about the pending path;
    /// behaves exactly as the model's `step_m`.
    pub fn feed(&mut self, ev: FsEvent) -> (r: Result<(), JailError>)
        requires
            old(self).wf(),
            !old(self).done(),
        ensures
            final(self).root_m() == old(self).root_m(),
            match step_m(old(self).root_m(), old(self).m(), ev@) {
                OutcomeModel::Next(m2) => r is Ok && final(self).m() == m2 && final(self).wf(),
                OutcomeModel::Fail(em) => r matches Err(e) && e@ == em,
            },
    {
        let ghost rootm = self.root_m();
        let ghost m0 = self.m();
        match ev {
            FsEvent::Present => self.feed_push(false),
            FsEvent::Missing => self.feed_push(true),
            FsEvent::Symlink { target, target_exists } => {
                if self.follows >= MAX_FOLLOWS {
                    return Err(JailError::InvalidPath(InvalidPathReason::SymlinkChainTooLong));
                }
                if has_nul(target.as_slice()) {
                    return Err(JailError::InvalidPath(InvalidPathReason::NullByte));
                }
                if target.len() == 0 {
                    return Err(JailError::InvalidPath(InvalidPathReason::Empty));
                }
                let absolute = target[0] == 47;
                let tcomps = split_path(target.as_slice());
                proof {
                    lemma_split_valid(target@);
                }
                if target_exists {
                    self.follows = self.follows + 1;
                    let ghost remv = self.remaining@;
                    let _ = self.remaining.remove(0);
                    proof {
                        lemma_comps_view_remove0(remv);
                    }
                    if absolute {
                        self.resolved = Vec::new();
                        proof {
                            assert(comps_view(self.resolved@) =~= Seq::<Seq<u8>>::empty());
                        }
                    }
                    let ghost rest = self.m().remaining;
                    let ghost tview = comps_view(tcomps@);
                    let mut newrem = tcomps;
                    let mut j: usize = 0;
                    proof {
                        assert(rest.subrange(0, 0) =~= Seq::<Seq<u8>>::empty());
                        assert(comps_view(newrem@) =~= tview + rest.subrange(0, 0));
                    }
                    while j < self.remaining.len()
                        invariant
                            j <= self.remaining@.len(),
                            rest == comps_view(self.remaining@),
                            comps_view(newrem@) == tview + rest.subrange(0, j as int),
                        decreases self.remaining@.len() - j,
                    {
                        let c = clone_bytes(self.remaining[j].as_slice());
                        let ghost prev = newrem@;
                        let ghost cg = c;
                        newrem.push(c);
                        proof {
                            lemma_comps_view_push(prev, cg);
                            assert(comps_view(newrem@) =~= tview + rest.subrange(0, j + 1));
                        }
                        j += 1;
                    }
                    proof {
                        assert(rest.subrange(0, rest.len() as int) =~= rest);
                    }
                    self.remaining = newrem;
                    proof {
                        assert(comps_view(self.remaining@) == tview + rest);
                        assert forall|k: int| 0 <= k < (tview + rest).len() implies
                            valid_component(#[trigger] (tview + rest)[k]) by {
                            if k < tview.len() {
                                assert((tview + rest)[k] == tview[k]);
                            } else {
                                assert((tview + rest)[k] == rest[k - tview.len()]);
                            }
                        }
                    }
                    self.settle(false)
                } else {
                    let mut kept = clone_comps(&self.resolved);
                    let kc = clone_bytes(self.remaining[0].as_slice());
                    let ghost keptprev = kept@;
                    let ghost kcg = kc;
                    kept.push(kc);
                    proof {
                        lemma_comps_view_push(keptprev, kcg);
                        assert(comps_view(kept@) == m0.resolved.push(m0.remaining[0]));
                    }
                    if self.remaining.len() > 1 {
                        return Err(JailError::BrokenSymlink(comps_to_abs(&kept)));
                    }
                    if !comps_is_prefix(&self.root, &kept) {
                        return Err(
                            JailError::EscapedRoot {
                                attempted: comps_to_abs(&kept),
                                root: comps_to_abs(&self.root),
                            },
                        );
                    }
                    let base: Vec<Vec<u8>> = if absolute {
                        Vec::new()
                    } else {
                        clone_comps(&self.resolved)
                    };
                    proof {
                        if absolute {
                            assert(comps_view(base@) =~= Seq::<Seq<u8>>::empty());
                        }
                    }
                    let mut probe = Walk {
                        root: clone_comps(&self.root),
                        resolved: base,
                        remaining: tcomps,
                        follows: 0,
                    };
                    let face_value = probe.settle(true);
                    if face_value.is_err() {
                        return Err(JailError::BrokenSymlink(comps_to_abs(&kept)));
                    }
                    self.resolved = kept;
                    self.remaining.clear();
                    proof {
                        assert(comps_view(self.remaining@) =~= Seq::<Seq<u8>>::empty());
                        assert forall|k: int| 0 <= k < self.m().resolved.len() implies
                            normal_component(#[trigger] self.m().resolved[k]) by {
                            if k < m0.resolved.len() {
                                assert(self.m().resolved[k] == m0.resolved[k]);
                            } else {
                                assert(self.m().resolved[k] == m0.remaining[0]);
                            }
                        }
                    }
                    Ok(())
                }
            },
        }
    }

    /// The `Present`/`Missing` transition: append the pending component,
    /// check containment, then settle (lexically to the end for a missing
    /// component, since nothing beyond it can exist).
    fn feed_push(&mut self, lexical: bool) -> (r: Result<(), JailError>)
        requires
            old(self).wf(),
            !old(self).done(),
        ensures
            final(self).root_m() == old(self).root_m(),
            match step_push(old(self).root_m(), old(self).m(), lexical) {
                OutcomeModel::Next(m2) => r is Ok && final(self).m() == m2 && final(self).wf(),
                OutcomeModel::Fail(em) => r matches Err(e) && e@ == em,
            },
    {
        let ghost rootm = self.root_m();
        let ghost m0 = self.m();
        let ghost remv = self.remaining@;
        let c = self.remaining.remove(0);
        let ghost resv = self.resolved@;
        let ghost cg = c;
        self.resolved.push(c);
        proof {
            lemma_comps_view_remove0(remv);
            lemma_comps_view_push(resv, cg);
            assert(comps_view(self.resolved@) == m0.resolved.push(m0.remaining[0]));
        }
        if !comps_is_prefix(&self.root, &self.resolved) {
            let attempted = comps_to_abs(&self.resolved);
            let rootp = comps_to_abs(&self.root);
            return Err(JailError::EscapedRoot { attempted, root: rootp });
        }
        proof {
            let down = m0.resolved.push(m0.remaining[0]);
            assert forall|k: int| 0 <= k < down.len() implies normal_component(
                #[trigger] down[k],
            ) by {
                if k < m0.resolved.len() {
                    assert(down[k] == m0.resolved[k]);
                } else {
                    assert(down[k] == m0.remaining[0]);
                }
            }
        }
        self.settle(lexical)
    }
}

impl Jail {
    /// Begins resolving an untrusted relative path against this jail:
    /// rejects NUL bytes, emptiness and absolute input before any
    /// filesystem access, then settles from the root.
    pub fn join_start(&self, rel: &[u8]) -> (r: Result<Walk, JailError>)
        requires
            self.wf(),
        ensures
            match r {
                Ok(w) => start_m(self.root_comps(), rel@) == OutcomeModel::Next(w.m()) && w.wf()
                    && w.root_m() == self.root_comps(),
                Err(e) => start_m(self.root_comps(), rel@) == OutcomeModel::Fail(e@),
            },
    {
        if has_nul(rel) {
            return Err(JailError::InvalidPath(InvalidPathReason::NullByte));
        }
        if rel.len() == 0 {
            return Err(JailError::InvalidPath(InvalidPathReason::Empty));
        }
        if rel[0] == 47 {
            return Err(JailError::InvalidPath(InvalidPathReason::MustBeRelative));
        }
        let comps = split_path(rel);
        proof {
            lemma_split_valid(rel@);
        }
        let mut w = Walk {
            root: self.root_clone(),
            resolved: self.root_clone(),
            remaining: comps,
            follows: 0,
        };
        match w.settle(false) {
            Ok(_) => Ok(w),
            Err(e) => Err(e),
        }
    }
}

} // verus!
