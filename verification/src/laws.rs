//! The general laws of the library, each stated over the same model that
//! the executable functions' contracts use, and proved once and for all.

use vstd::prelude::*;
use crate::bytes::{
    abs_bytes, all_normal, all_valid, comps_bytes, contains_nul, dot, dotdot, is_prefix_of,
    normal_component, rel_bytes, split_comps, split_from, valid_byte, valid_component,
};
use crate::error::{ErrModel, InvalidPathReason};
use crate::jail::{construct_m, contains_m, relative_m};
use crate::model::{
    advance_m, escaped_err, settle_spec, start_m, step_m, wf_m, EventModel, OutcomeModel,
    Settled, WalkModel,
};

verus! {

// ---------------------------------------------------------------------------
// Byte-level facts about joining and re-splitting component sequences.
// ---------------------------------------------------------------------------

proof fn lemma_nul_concat(a: Seq<u8>, b: Seq<u8>)
    ensures
        contains_nul(a + b) == (contains_nul(a) || contains_nul(b)),
{
    if contains_nul(a) {
        let i = choose|i: int| 0 <= i < a.len() && a[i] == 0;
        assert((a + b)[i] == 0);
    }
    if contains_nul(b) {
        let i = choose|i: int| 0 <= i < b.len() && b[i] == 0;
        assert((a + b)[a.len() + i] == 0);
    }
    if contains_nul(a + b) {
        let i = choose|i: int| 0 <= i < (a + b).len() && (a + b)[i] == 0;
        if i < a.len() {
            assert(a[i] == 0);
        } else {
            assert(b[i - a.len()] == 0);
        }
    }
}

proof fn lemma_comps_bytes_no_nul(cs: Seq<Seq<u8>>)
    requires
        all_valid(cs),
    ensures
        !contains_nul(comps_bytes(cs)),
    decreases cs.len(),
{
    if cs.len() == 0 {
        if contains_nul(comps_bytes(cs)) {
            let i = choose|i: int| 0 <= i < comps_bytes(cs).len() && comps_bytes(cs)[i] == 0;
        }
    } else {
        assert forall|k: int| 0 <= k < cs.drop_first().len() implies valid_component(
            #[trigger] cs.drop_first()[k],
        ) by {
            assert(cs.drop_first()[k] == cs[k + 1]);
        }
        lemma_comps_bytes_no_nul(cs.drop_first());
        if contains_nul(seq![47u8]) {
            let i = choose|i: int| 0 <= i < 1 && seq![47u8][i] == 0;
        }
        if contains_nul(cs[0]) {
            let i = choose|i: int| 0 <= i < cs[0].len() && cs[0][i] == 0;
            assert(valid_byte(cs[0][i]));
        }
        lemma_nul_concat(seq![47u8], cs[0]);
        lemma_nul_concat(seq![47u8] + cs[0], comps_bytes(cs.drop_first()));
    }
}

/// A run of separator-free bytes is swallowed whole into the component
/// being collected.
proof fn lemma_split_run(s: Seq<u8>, i: int, k: int, cur: Seq<u8>)
    requires
        0 <= i <= k <= s.len(),
        forall|j: int| i <= j < k ==> s[j] != 47,
    ensures
        split_from(s, i, cur) == split_from(s, k, cur + s.subrange(i, k)),
    decreases k - i,
{
    if i == k {
        assert(cur + s.subrange(i, k) =~= cur);
    } else {
        assert(s[i] != 47);
        lemma_split_run(s, i + 1, k, cur.push(s[i]));
        assert(cur.push(s[i]) + s.subrange(i + 1, k) =~= cur + s.subrange(i, k));
    }
}

/// Splitting is invariant under dropping an already-consumed byte prefix.
proof fn lemma_split_shift(s: Seq<u8>, d: int, i: int, cur: Seq<u8>)
    requires
        0 <= d <= i,
        d <= s.len(),
    ensures
        split_from(s, i, cur) == split_from(s.skip(d), i - d, cur),
    decreases s.len() - i + 1,
{
    let t = s.skip(d);
    if i >= s.len() {
        assert(i - d >= t.len());
    } else {
        assert(t[i - d] == s[i]);
        if s[i] == 47 {
            if cur.len() == 0 {
                lemma_split_shift(s, d, i + 1, seq![]);
            } else {
                lemma_split_shift(s, d, i + 1, seq![]);
            }
        } else {
            lemma_split_shift(s, d, i + 1, cur.push(s[i]));
        }
    }
}

/// Splitting the bytes of a valid component sequence gives those
/// components back.
proof fn lemma_split_of_comps_bytes(cs: Seq<Seq<u8>>)
    requires
        all_valid(cs),
    ensures
        split_comps(comps_bytes(cs)) == cs,
    decreases cs.len(),
{
    let s = comps_bytes(cs);
    if cs.len() == 0 {
        assert(split_comps(s) =~= cs);
    } else {
        let c0 = cs[0];
        let rest = cs.drop_first();
        assert(valid_component(c0));
        assert(s == seq![47u8] + c0 + comps_bytes(rest));
        assert(s[0] == 47);
        assert(split_comps(s) == split_from(s, 1, seq![]));
        let k = 1 + c0.len() as int;
        assert forall|j: int| 1 <= j < k implies s[j] != 47 by {
            assert(s[j] == c0[j - 1]);
            assert(valid_byte(c0[j - 1]));
        }
        lemma_split_run(s, 1, k, seq![]);
        assert(seq![] + s.subrange(1, k) =~= s.subrange(1, k));
        assert(s.subrange(1, k) =~= c0);
        assert forall|m: int| 0 <= m < rest.len() implies valid_component(
            #[trigger] rest[m],
        ) by {
            assert(rest[m] == cs[m + 1]);
        }
        if rest.len() == 0 {
            assert(comps_bytes(rest) =~= Seq::<u8>::empty());
            assert(s.len() == k);
            assert(split_from(s, k, c0) == seq![c0]);
            assert(seq![c0] =~= cs);
        } else {
            assert(comps_bytes(rest) == seq![47u8] + rest[0] + comps_bytes(rest.drop_first()));
            assert(s[k] == comps_bytes(rest)[0]);
            assert(comps_bytes(rest)[0] == 47);
            assert(split_from(s, k, c0) == seq![c0] + split_from(s, k + 1, seq![]));
            lemma_split_shift(s, k, k + 1, seq![]);
            assert(s.skip(k) =~= comps_bytes(rest));
            assert(split_from(s, k + 1, seq![]) == split_from(comps_bytes(rest), 1, seq![]));
            assert(split_comps(comps_bytes(rest)) == split_from(comps_bytes(rest), 1, seq![]));
            lemma_split_of_comps_bytes(rest);
            assert(seq![c0] + rest =~= cs);
        }
    }
}

/// Round trip between component sequences and absolute byte paths: the
/// bytes of a valid component sequence split back into exactly those
/// components, hold no NUL byte, and form an absolute path.
pub proof fn lemma_abs_round_trip(cs: Seq<Seq<u8>>)
    requires
        all_valid(cs),
    ensures
        split_comps(abs_bytes(cs)) == cs,
        !contains_nul(abs_bytes(cs)),
        abs_bytes(cs).len() > 0,
        abs_bytes(cs)[0] == 47,
{
    if cs.len() == 0 {
        let s = seq![47u8];
        assert(abs_bytes(cs) == s);
        assert(split_comps(s) == split_from(s, 1, seq![]));
        assert(split_from(s, 1, seq![]) =~= Seq::<Seq<u8>>::empty());
        assert(split_comps(s) =~= cs);
        if contains_nul(s) {
            let i = choose|i: int| 0 <= i < s.len() && s[i] == 0;
        }
    } else {
        lemma_split_of_comps_bytes(cs);
        lemma_comps_bytes_no_nul(cs);
        assert(abs_bytes(cs)[0] == (seq![47u8] + cs[0] + comps_bytes(cs.drop_first()))[0]);
    }
}

// ---------------------------------------------------------------------------
// Laws of the walk.
// ---------------------------------------------------------------------------

/// A finished walk lies inside the root: whatever filesystem answers were
/// fed in, a well-formed walk state with nothing left to process has the
/// root's components as a prefix of its resolved path. Containment of
/// every returned path follows, with no assumption about symlinks.
pub proof fn lemma_finished_walk_contained(root: Seq<Seq<u8>>, m: WalkModel)
    requires
        wf_m(root, m),
        m.remaining.len() == 0,
    ensures
        is_prefix_of(root, m.resolved),
{
}

/// Lexically settling plain components (none being `.` or `..`) from a
/// contained state appends them all, and every intermediate check passes.
proof fn lemma_settle_lexical_appends(
    root: Seq<Seq<u8>>,
    resolved: Seq<Seq<u8>>,
    comps: Seq<Seq<u8>>,
)
    requires
        is_prefix_of(root, resolved),
        all_normal(comps),
    ensures
        (settle_spec(root, resolved, comps, true) == Settled::At {
            resolved: resolved + comps,
            remaining: Seq::<Seq<u8>>::empty(),
        }),
    decreases comps.len(),
{
    if comps.len() == 0 {
        assert(resolved + comps =~= resolved);
        assert(comps =~= Seq::<Seq<u8>>::empty());
    } else {
        let c = comps[0];
        assert(normal_component(c));
        let down = resolved.push(c);
        assert(is_prefix_of(root, down));
        assert forall|k: int| 0 <= k < comps.drop_first().len() implies normal_component(
            #[trigger] comps.drop_first()[k],
        ) by {
            assert(comps.drop_first()[k] == comps[k + 1]);
        }
        lemma_settle_lexical_appends(root, down, comps.drop_first());
        assert(down + comps.drop_first() =~= resolved + comps);
    }
}

/// Resolving a relative path of plain components against a root, with no
/// symlink anywhere along the way, yields exactly the root's components
/// followed by the path's components — resolution is concatenation.
pub proof fn lemma_join_plain_appends(root: Seq<Seq<u8>>, comps: Seq<Seq<u8>>)
    requires
        all_normal(root),
        all_normal(comps),
    ensures
        (advance_m(root, root, comps, true, 0) == OutcomeModel::Next(
            WalkModel {
                resolved: root + comps,
                remaining: Seq::<Seq<u8>>::empty(),
                follows: 0,
            },
        )),
        is_prefix_of(root, root + comps),
{
    assert(is_prefix_of(root, root));
    lemma_settle_lexical_appends(root, root, comps);
    assert forall|i: int| 0 <= i < root.len() implies root[i] == (root + comps)[i] by {}
}

/// Lexical settling never stops early: it either escapes or consumes
/// every component.
proof fn lemma_settle_lexical_exhausts(
    root: Seq<Seq<u8>>,
    resolved: Seq<Seq<u8>>,
    remaining: Seq<Seq<u8>>,
)
    ensures
        match settle_spec(root, resolved, remaining, true) {
            Settled::At { resolved: _, remaining: rem } => rem.len() == 0,
            Settled::Escaped { attempted: _ } => true,
        },
    decreases remaining.len(),
{
    if remaining.len() == 0 {
    } else {
        let c = remaining[0];
        let rest = remaining.drop_first();
        if c == dot() {
            lemma_settle_lexical_exhausts(root, resolved, rest);
        } else if c == dotdot() {
            let up = if resolved.len() > 0 {
                resolved.drop_last()
            } else {
                resolved
            };
            if is_prefix_of(root, up) {
                lemma_settle_lexical_exhausts(root, up, rest);
            }
        } else {
            let down = resolved.push(c);
            if is_prefix_of(root, down) {
                lemma_settle_lexical_exhausts(root, down, rest);
            }
        }
    }
}

/// Settling in probe mode from a contained state stops in a contained
/// state.
proof fn lemma_settle_false_prefix(
    root: Seq<Seq<u8>>,
    resolved: Seq<Seq<u8>>,
    remaining: Seq<Seq<u8>>,
)
    requires
        is_prefix_of(root, resolved),
    ensures
        match settle_spec(root, resolved, remaining, false) {
            Settled::At { resolved: r2, remaining: _ } => is_prefix_of(root, r2),
            Settled::Escaped { attempted: _ } => true,
        },
    decreases remaining.len(),
{
    if remaining.len() == 0 {
    } else {
        let c = remaining[0];
        let rest = remaining.drop_first();
        if c == dot() {
            lemma_settle_false_prefix(root, resolved, rest);
        } else if c == dotdot() {
            let up = if resolved.len() > 0 {
                resolved.drop_last()
            } else {
                resolved
            };
            if is_prefix_of(root, up) {
                lemma_settle_false_prefix(root, up, rest);
            }
        }
    }
}

/// Settling in probe mode consumes only `.`/`..`; continuing lexically
/// from where it stops gives the same answer as settling lexically from
/// the start.
proof fn lemma_settle_prefix_lexical(
    root: Seq<Seq<u8>>,
    resolved: Seq<Seq<u8>>,
    remaining: Seq<Seq<u8>>,
)
    ensures
        match settle_spec(root, resolved, remaining, false) {
            Settled::At { resolved: r2, remaining: m2 } => settle_spec(
                root,
                resolved,
                remaining,
                true,
            ) == settle_spec(root, r2, m2, true),
            Settled::Escaped { attempted } => settle_spec(root, resolved, remaining, true)
                == Settled::Escaped { attempted },
        },
    decreases remaining.len(),
{
    if remaining.len() == 0 {
    } else {
        let c = remaining[0];
        let rest = remaining.drop_first();
        if c == dot() {
            lemma_settle_prefix_lexical(root, resolved, rest);
        } else if c == dotdot() {
            let up = if resolved.len() > 0 {
                resolved.drop_last()
            } else {
                resolved
            };
            if is_prefix_of(root, up) {
                lemma_settle_prefix_lexical(root, up, rest);
            }
        }
    }
}

/// In a symlink-free region of the filesystem (every probe answers
/// `Present` or `Missing`), each step of the walk preserves the fully
/// lexical outcome: the walk ends exactly where lexical resolution says,
/// or fails exactly where lexical resolution escapes.
pub proof fn lemma_no_symlink_step_preserves(root: Seq<Seq<u8>>, m: WalkModel, missing: bool)
    requires
        is_prefix_of(root, m.resolved),
        m.remaining.len() > 0,
        normal_component(m.remaining[0]),
    ensures
        ({
            let ev = if missing {
                EventModel::Missing
            } else {
                EventModel::Present
            };
            match step_m(root, m, ev) {
                OutcomeModel::Next(m2) => m2.follows == m.follows && is_prefix_of(
                    root,
                    m2.resolved,
                ) && advance_m(root, m2.resolved, m2.remaining, true, m.follows) == advance_m(
                    root,
                    m.resolved,
                    m.remaining,
                    true,
                    m.follows,
                ),
                OutcomeModel::Fail(em) => advance_m(root, m.resolved, m.remaining, true, m.follows)
                    == OutcomeModel::Fail(em),
            }
        }),
{
    let c = m.remaining[0];
    let rest = m.remaining.drop_first();
    let down = m.resolved.push(c);
    assert forall|i: int| 0 <= i < root.len() implies root[i] == down[i] by {
        assert(down[i] == m.resolved[i]);
    }
    assert(is_prefix_of(root, down));
    assert(settle_spec(root, m.resolved, m.remaining, true) == settle_spec(
        root,
        down,
        rest,
        true,
    ));
    if missing {
        lemma_settle_lexical_exhausts(root, down, rest);
    } else {
        lemma_settle_prefix_lexical(root, down, rest);
        lemma_settle_false_prefix(root, down, rest);
        match settle_spec(root, down, rest, false) {
            Settled::At { resolved: r2, remaining: m2 } => {
                if m2.len() == 0 && !is_prefix_of(root, r2) {
                } else {
                }
            },
            Settled::Escaped { attempted } => {},
        }
    }
}

// ---------------------------------------------------------------------------
// Laws of the public operations.
// ---------------------------------------------------------------------------

/// A `..` at the front of a relative path walks above any non-trivial
/// root, and the walk denies it as an escape before touching the
/// filesystem.
pub proof fn lemma_dotdot_escapes(root: Seq<Seq<u8>>, rel: Seq<u8>)
    requires
        root.len() > 0,
        !contains_nul(rel),
        rel.len() >= 2,
        rel[0] == 46,
        rel[1] == 46,
        rel.len() > 2 ==> rel[2] == 47,
    ensures
        start_m(root, rel) == OutcomeModel::Fail(escaped_err(root, root.drop_last())),
{
    assert(rel[0] != 47);
    assert(split_comps(rel) == split_from(rel, 1, seq![].push(rel[0])));
    assert(split_from(rel, 1, seq![].push(rel[0])) == split_from(
        rel,
        2,
        seq![].push(rel[0]).push(rel[1]),
    ));
    let cur = seq![].push(rel[0]).push(rel[1]);
    assert(cur =~= dotdot());
    let comps = split_comps(rel);
    if rel.len() == 2 {
        assert(split_from(rel, 2, cur) == seq![cur]);
        assert(comps[0] == dotdot());
        assert(comps.len() > 0);
    } else {
        assert(rel[2] == 47);
        assert(split_from(rel, 2, cur) == seq![cur] + split_from(rel, 3, seq![]));
        assert(comps[0] == dotdot());
        assert(comps.len() > 0);
    }
    let up = root.drop_last();
    assert(!is_prefix_of(root, up));
    assert(settle_spec(root, root, comps, false) == Settled::Escaped { attempted: up });
}

/// A symlink with an absolute target that departs from the root already
/// at its first component (so the target lies outside the root, however
/// it continues) is denied: following it re-walks the target from `/`,
/// and the very next probed component fails the containment check with
/// an escape — even though the raw concatenation of root and link name
/// looked contained.
pub proof fn lemma_absolute_symlink_outside_denied(
    root: Seq<Seq<u8>>,
    m: WalkModel,
    target: Seq<u8>,
    next_missing: bool,
)
    requires
        wf_m(root, m),
        m.remaining.len() > 0,
        m.follows < 40,
        !contains_nul(target),
        target.len() > 0,
        target[0] == 47,
        split_comps(target).len() > 0,
        normal_component(split_comps(target)[0]),
        !is_prefix_of(root, seq![split_comps(target)[0]]),
    ensures
        ({
            let spliced = WalkModel {
                resolved: Seq::<Seq<u8>>::empty(),
                remaining: split_comps(target) + m.remaining.drop_first(),
                follows: m.follows + 1,
            };
            let ev2 = if next_missing {
                EventModel::Missing
            } else {
                EventModel::Present
            };
            step_m(root, m, EventModel::Symlink { target, target_exists: true })
                == OutcomeModel::Next(spliced) && step_m(root, spliced, ev2)
                == OutcomeModel::Fail(escaped_err(root, seq![split_comps(target)[0]]))
        }),
{
    let tcomps = split_comps(target);
    let rest = m.remaining.drop_first();
    let spliced_rem = tcomps + rest;
    assert(spliced_rem[0] == tcomps[0]);
    assert(settle_spec(root, Seq::<Seq<u8>>::empty(), spliced_rem, false) == Settled::At {
        resolved: Seq::<Seq<u8>>::empty(),
        remaining: spliced_rem,
    });
    let spliced = WalkModel {
        resolved: Seq::<Seq<u8>>::empty(),
        remaining: spliced_rem,
        follows: m.follows + 1,
    };
    let down = Seq::<Seq<u8>>::empty().push(spliced_rem[0]);
    assert(down =~= seq![tcomps[0]]);
    assert(!is_prefix_of(root, down));
}

/// A symlink inside the root whose relative target climbs out through a
/// leading `..` is denied as an escape the moment it is followed.
pub proof fn lemma_parent_symlink_denied(root: Seq<Seq<u8>>, m: WalkModel, target: Seq<u8>)
    requires
        wf_m(root, m),
        m.remaining.len() > 0,
        m.resolved == root,
        root.len() > 0,
        m.follows < 40,
        !contains_nul(target),
        target.len() > 0,
        target[0] != 47,
        split_comps(target).len() > 0,
        split_comps(target)[0] == dotdot(),
    ensures
        (step_m(root, m, EventModel::Symlink { target, target_exists: true })
            == OutcomeModel::Fail(escaped_err(root, root.drop_last()))),
{
    let tcomps = split_comps(target);
    let rest = m.remaining.drop_first();
    let spliced_rem = tcomps + rest;
    assert(spliced_rem[0] == tcomps[0]);
    let up = root.drop_last();
    assert(!is_prefix_of(root, up));
    assert(settle_spec(root, root, spliced_rem, false) == Settled::Escaped { attempted: up });
}

/// The jail root itself is contained, and its relative path is empty.
pub proof fn lemma_root_round_trip(root: Seq<Seq<u8>>)
    requires
        all_normal(root),
    ensures
        contains_m(root, abs_bytes(root)) == Ok::<Seq<Seq<u8>>, ErrModel>(root),
        relative_m(root, abs_bytes(root)) == Ok::<Seq<u8>, ErrModel>(Seq::<u8>::empty()),
{
    assert forall|i: int| 0 <= i < root.len() implies valid_component(#[trigger] root[i]) by {}
    lemma_abs_round_trip(root);
    assert(is_prefix_of(root, root));
    assert(root.subrange(root.len() as int, root.len() as int) =~= Seq::<Seq<u8>>::empty());
}

/// Round trip of `join` and the containment checks, with no symlinks: the
/// joined path of plain components is contained under the root, its bytes
/// split back into exactly the root's components followed by the path's,
/// and deriving the relative path gives the path back in normalized form.
pub proof fn lemma_join_relative_round_trip(root: Seq<Seq<u8>>, comps: Seq<Seq<u8>>)
    requires
        all_normal(root),
        all_normal(comps),
    ensures
        is_prefix_of(root, root + comps),
        contains_m(root, abs_bytes(root + comps)) == Ok::<Seq<Seq<u8>>, ErrModel>(root + comps),
        relative_m(root, abs_bytes(root + comps)) == Ok::<Seq<u8>, ErrModel>(rel_bytes(comps)),
{
    let full = root + comps;
    assert forall|i: int| 0 <= i < full.len() implies normal_component(#[trigger] full[i]) by {
        if i < root.len() {
            assert(full[i] == root[i]);
        } else {
            assert(full[i] == comps[i - root.len()]);
        }
    }
    assert forall|i: int| 0 <= i < full.len() implies valid_component(#[trigger] full[i]) by {}
    lemma_abs_round_trip(full);
    assert(is_prefix_of(root, full));
    assert(full.subrange(root.len() as int, full.len() as int) =~= comps);
}

/// A NUL byte anywhere in the input is rejected as `InvalidPath` by every
/// operation, before any filesystem access.
pub proof fn lemma_nul_rejected_everywhere(root: Seq<Seq<u8>>, s: Seq<u8>)
    requires
        contains_nul(s),
    ensures
        start_m(root, s) == OutcomeModel::Fail(
            ErrModel::Invalid { reason: InvalidPathReason::NullByte },
        ),
        contains_m(root, s) == Err::<Seq<Seq<u8>>, ErrModel>(
            ErrModel::Invalid { reason: InvalidPathReason::NullByte },
        ),
        relative_m(root, s) == Err::<Seq<u8>, ErrModel>(
            ErrModel::Invalid { reason: InvalidPathReason::NullByte },
        ),
        construct_m(s) == Err::<Seq<Seq<u8>>, ErrModel>(
            ErrModel::Invalid { reason: InvalidPathReason::NullByte },
        ),
{
}

/// An absolute path handed to `join` is rejected as `InvalidPath`, even
/// when it would lie inside the root.
pub proof fn lemma_absolute_join_rejected(root: Seq<Seq<u8>>, s: Seq<u8>)
    requires
        !contains_nul(s),
        s.len() > 0,
        s[0] == 47,
    ensures
        start_m(root, s) == OutcomeModel::Fail(
            ErrModel::Invalid { reason: InvalidPathReason::MustBeRelative },
        ),
{
}

} // verus!
