//! The mathematical model of the symlink-aware walk: an explicit,
//! depth-bounded state machine over component sequences. The state is the
//! resolved-so-far path, the components still to process, and the number of
//! symlinks followed; each filesystem answer drives one transition.

use vstd::prelude::*;
use crate::bytes::{
    abs_bytes, all_normal, all_valid, contains_nul, dot, dotdot, is_prefix_of, normal_component,
    split_comps,
};
use crate::error::{ErrModel, InvalidPathReason};

verus! {

/// The bound on symlink follows across one whole walk; exceeding it is
/// treated as a malformed path (a cycle or an excessive chain).
pub const MAX_FOLLOWS: u64 = 40;

/// The state of a walk: components of the resolved-so-far absolute path,
/// the components still to process (front first), and how many symlinks
/// have been followed so far.
#[verifier::ext_equal]
pub struct WalkModel {
    pub resolved: Seq<Seq<u8>>,
    pub remaining: Seq<Seq<u8>>,
    pub follows: nat,
}

/// A filesystem answer about the next pending path, as the model sees it.
pub enum EventModel {
    /// The path does not exist (and is not a symlink).
    Missing,
    /// The path exists and is not a symlink.
    Present,
    /// The path is a symlink with the given literal target; `target_exists`
    /// says whether following the whole chain reaches an existing file.
    Symlink { target: Seq<u8>, target_exists: bool },
}

/// Where the component-by-component settling of pending `.`/`..` (and, in
/// lexical mode, every component) ends up.
pub enum Settled {
    /// A step left the root: carries the offending resolved components.
    Escaped { attempted: Seq<Seq<u8>> },
    /// Settled without escaping; in non-lexical mode `remaining` is either
    /// empty or starts with a component that needs a filesystem probe.
    At { resolved: Seq<Seq<u8>>, remaining: Seq<Seq<u8>> },
}

/// Settles the front of `remaining`: `.` is dropped, `..` pops one resolved
/// component (the parent of `/` is `/`), and, when `lexical` holds, normal
/// components are appended literally. After every step the resolved path
/// must still have the root's components as a prefix, else the walk has
/// escaped. In non-lexical mode the settling stops at the first normal
/// component, which needs a filesystem probe.
pub open spec fn settle_spec(
    root: Seq<Seq<u8>>,
    resolved: Seq<Seq<u8>>,
    remaining: Seq<Seq<u8>>,
    lexical: bool,
) -> Settled
    decreases remaining.len(),
{
    if remaining.len() == 0 {
        Settled::At { resolved, remaining }
    } else {
        let c = remaining[0];
        let rest = remaining.drop_first();
        if c == dot() {
            settle_spec(root, resolved, rest, lexical)
        } else if c == dotdot() {
            let up = if resolved.len() > 0 {
                resolved.drop_last()
            } else {
                resolved
            };
            if is_prefix_of(root, up) {
                settle_spec(root, up, rest, lexical)
            } else {
                Settled::Escaped { attempted: up }
            }
        } else if lexical {
            let down = resolved.push(c);
            if is_prefix_of(root, down) {
                settle_spec(root, down, rest, lexical)
            } else {
                Settled::Escaped { attempted: down }
            }
        } else {
            Settled::At { resolved, remaining }
        }
    }
}

/// The escape error for a resolved path that left the root.
pub open spec fn escaped_err(root: Seq<Seq<u8>>, attempted: Seq<Seq<u8>>) -> ErrModel {
    ErrModel::Escaped { attempted: abs_bytes(attempted), root: abs_bytes(root) }
}

/// What one transition of the walk yields: a next state (whose `remaining`
/// is empty exactly when the walk is done) or an error.
pub enum OutcomeModel {
    Next(WalkModel),
    Fail(ErrModel),
}

/// Turns a settled state into an outcome: an escape fails, and a walk whose
/// components are exhausted must have the root as a component-wise prefix
/// of its result — the final guard that no returned path ever leaves the
/// root, whatever the filesystem answered.
pub open spec fn finish_of(root: Seq<Seq<u8>>, st: Settled, follows: nat) -> OutcomeModel {
    match st {
        Settled::Escaped { attempted } => OutcomeModel::Fail(escaped_err(root, attempted)),
        Settled::At { resolved, remaining } => {
            if remaining.len() == 0 && !is_prefix_of(root, resolved) {
                OutcomeModel::Fail(escaped_err(root, resolved))
            } else {
                OutcomeModel::Next(WalkModel { resolved, remaining, follows })
            }
        },
    }
}

/// Settling followed by the final containment guard.
pub open spec fn advance_m(
    root: Seq<Seq<u8>>,
    resolved: Seq<Seq<u8>>,
    remaining: Seq<Seq<u8>>,
    lexical: bool,
    follows: nat,
) -> OutcomeModel {
    finish_of(root, settle_spec(root, resolved, remaining, lexical), follows)
}

/// Appends the pending component and advances; used for both existing
/// components (further components may still be probed) and missing ones
/// (the rest of the walk is lexical). The append itself is checked against
/// the root, like every other step.
pub open spec fn step_push(root: Seq<Seq<u8>>, m: WalkModel, lexical: bool) -> OutcomeModel {
    let down = m.resolved.push(m.remaining[0]);
    if !is_prefix_of(root, down) {
        OutcomeModel::Fail(escaped_err(root, down))
    } else {
        advance_m(root, down, m.remaining.drop_first(), lexical, m.follows)
    }
}

/// One transition of the walk on a filesystem answer about the pending
/// path (the resolved path extended by the front remaining component).
///
/// - `Present`: the component exists and is no symlink; append it.
/// - `Missing`: the component does not exist; append it and every later
///   component literally, each still checked for containment.
/// - `Symlink`: cap the follow count; reject a malformed target; then
///   * an existing target is spliced in front of the remaining components
///     (resolved against the symlink's parent when relative, from `/` when
///     absolute), so that every later check applies to what the link
///     ultimately denotes;
///   * a dangling target as an intermediate component is a broken symlink;
///   * a dangling target as the last component is kept unresolved, but
///     only when its literal target, taken at face value, settles inside
///     the root; otherwise it too is a broken symlink.
pub open spec fn step_m(root: Seq<Seq<u8>>, m: WalkModel, ev: EventModel) -> OutcomeModel {
    match ev {
        EventModel::Present => step_push(root, m, false),
        EventModel::Missing => step_push(root, m, true),
        EventModel::Symlink { target, target_exists } => {
            if m.follows >= MAX_FOLLOWS as nat {
                OutcomeModel::Fail(
                    ErrModel::Invalid { reason: InvalidPathReason::SymlinkChainTooLong },
                )
            } else if contains_nul(target) {
                OutcomeModel::Fail(ErrModel::Invalid { reason: InvalidPathReason::NullByte })
            } else if target.len() == 0 {
                OutcomeModel::Fail(ErrModel::Invalid { reason: InvalidPathReason::Empty })
            } else {
                let tcomps = split_comps(target);
                let base = if target[0] == 47 {
                    Seq::<Seq<u8>>::empty()
                } else {
                    m.resolved
                };
                if target_exists {
                    advance_m(
                        root,
                        base,
                        tcomps + m.remaining.drop_first(),
                        false,
                        m.follows + 1,
                    )
                } else {
                    let kept = m.resolved.push(m.remaining[0]);
                    if m.remaining.len() > 1 {
                        OutcomeModel::Fail(ErrModel::Broken { at: abs_bytes(kept) })
                    } else if !is_prefix_of(root, kept) {
                        OutcomeModel::Fail(escaped_err(root, kept))
                    } else {
                        match advance_m(root, base, tcomps, true, m.follows) {
                            OutcomeModel::Next(_) => OutcomeModel::Next(
                                WalkModel {
                                    resolved: kept,
                                    remaining: Seq::<Seq<u8>>::empty(),
                                    follows: m.follows,
                                },
                            ),
                            OutcomeModel::Fail(_) => OutcomeModel::Fail(
                                ErrModel::Broken { at: abs_bytes(kept) },
                            ),
                        }
                    }
                }
            }
        },
    }
}

/// Starting a walk: reject NUL bytes, emptiness and absolute inputs before
/// any filesystem access, then settle from the root.
pub open spec fn start_m(root: Seq<Seq<u8>>, rel: Seq<u8>) -> OutcomeModel {
    if contains_nul(rel) {
        OutcomeModel::Fail(ErrModel::Invalid { reason: InvalidPathReason::NullByte })
    } else if rel.len() == 0 {
        OutcomeModel::Fail(ErrModel::Invalid { reason: InvalidPathReason::Empty })
    } else if rel[0] == 47 {
        OutcomeModel::Fail(ErrModel::Invalid { reason: InvalidPathReason::MustBeRelative })
    } else {
        advance_m(root, root, split_comps(rel), false, 0)
    }
}

/// Well-formedness of a walk state at a public boundary: every pending
/// component is valid, the resolved components are canonical, the follow
/// count is within its bound, settling has stopped at a component that
/// needs a probe — and, above all, a finished walk lies inside the root.
pub open spec fn wf_m(root: Seq<Seq<u8>>, m: WalkModel) -> bool {
    &&& all_valid(m.remaining)
    &&& all_normal(m.resolved)
    &&& m.follows <= MAX_FOLLOWS as nat
    &&& (m.remaining.len() > 0 ==> normal_component(m.remaining[0]))
    &&& (m.remaining.len() == 0 ==> is_prefix_of(root, m.resolved))
}

} // verus!
