//! Byte-level path model: paths are byte strings, split at `/` (byte 47)
//! into components. All containment decisions are made on component
//! sequences, never on raw byte prefixes, so a sibling such as `/jail-evil`
//! can never match a root of `/jail`.

use vstd::prelude::*;

verus! {

/// A byte that may appear inside a path component: neither NUL nor `/`.
pub open spec fn valid_byte(b: u8) -> bool {
    b != 0 && b != 47
}

/// A component is a non-empty run of bytes free of NUL and `/`.
pub open spec fn valid_component(c: Seq<u8>) -> bool {
    c.len() > 0 && (forall|i: int| 0 <= i < c.len() ==> valid_byte(c[i]))
}

/// The component `.` (one dot, byte 46).
pub open spec fn dot() -> Seq<u8> {
    seq![46u8]
}

/// The component `..`.
pub open spec fn dotdot() -> Seq<u8> {
    seq![46u8, 46u8]
}

/// A component of a canonical path: valid and neither `.` nor `..`.
pub open spec fn normal_component(c: Seq<u8>) -> bool {
    valid_component(c) && c != dot() && c != dotdot()
}

pub open spec fn all_valid(cs: Seq<Seq<u8>>) -> bool {
    forall|i: int| 0 <= i < cs.len() ==> valid_component(#[trigger] cs[i])
}

pub open spec fn all_normal(cs: Seq<Seq<u8>>) -> bool {
    forall|i: int| 0 <= i < cs.len() ==> normal_component(#[trigger] cs[i])
}

pub open spec fn contains_nul(s: Seq<u8>) -> bool {
    exists|i: int| 0 <= i < s.len() && s[i] == 0
}

/// The component sequences of a vector of components.
pub open spec fn comps_view(v: Seq<Vec<u8>>) -> Seq<Seq<u8>> {
    Seq::new(v.len(), |i: int| v[i]@)
}

/// `pre` is a component-wise prefix of `s`.
pub open spec fn is_prefix_of(pre: Seq<Seq<u8>>, s: Seq<Seq<u8>>) -> bool {
    pre.len() <= s.len() && (forall|i: int| 0 <= i < pre.len() ==> pre[i] == s[i])
}

/// Splitting a byte string at `/`, scanning from index `i` with the bytes of
/// the component read so far in `cur`. Empty segments (doubled or trailing
/// slashes, and a leading slash) produce no component.
pub open spec fn split_from(s: Seq<u8>, i: int, cur: Seq<u8>) -> Seq<Seq<u8>>
    decreases s.len() - i,
{
    if i < 0 || i >= s.len() {
        if cur.len() == 0 {
            seq![]
        } else {
            seq![cur]
        }
    } else if s[i] == 47 {
        if cur.len() == 0 {
            split_from(s, i + 1, seq![])
        } else {
            seq![cur] + split_from(s, i + 1, seq![])
        }
    } else {
        split_from(s, i + 1, cur.push(s[i]))
    }
}

/// The components of a byte path, in order.
pub open spec fn split_comps(s: Seq<u8>) -> Seq<Seq<u8>> {
    split_from(s, 0, seq![])
}

/// The bytes `/c0/c1/.../cn` of a component sequence; empty for no components.
pub open spec fn comps_bytes(cs: Seq<Seq<u8>>) -> Seq<u8>
    decreases cs.len(),
{
    if cs.len() == 0 {
        seq![]
    } else {
        seq![47u8] + cs[0] + comps_bytes(cs.drop_first())
    }
}

/// The absolute byte path of a component sequence; `/` for no components.
pub open spec fn abs_bytes(cs: Seq<Seq<u8>>) -> Seq<u8> {
    if cs.len() == 0 {
        seq![47u8]
    } else {
        comps_bytes(cs)
    }
}

/// The relative byte path `c0/c1/.../cn`; empty for no components.
pub open spec fn rel_bytes(cs: Seq<Seq<u8>>) -> Seq<u8> {
    if cs.len() == 0 {
        seq![]
    } else {
        cs[0] + comps_bytes(cs.drop_first())
    }
}

/// Whether a byte path is absolute: non-empty and starting with `/`.
pub open spec fn is_abs(s: Seq<u8>) -> bool {
    s.len() > 0 && s[0] == 47
}

/// Pushing a component commutes with taking the component view.
pub proof fn lemma_comps_view_push(s: Seq<Vec<u8>>, c: Vec<u8>)
    ensures
        comps_view(s.push(c)) == comps_view(s).push(c@),
{
    assert forall|k: int| 0 <= k < s.push(c).len() implies comps_view(s.push(c))[k]
        == comps_view(s).push(c@)[k] by {
        if k < s.len() {
            assert(s.push(c)[k] == s[k]);
        } else {
            assert(s.push(c)[k] == c);
        }
    }
    assert(comps_view(s.push(c)) =~= comps_view(s).push(c@));
}

/// Taking a subrange commutes with taking the component view.
pub proof fn lemma_comps_view_subrange(s: Seq<Vec<u8>>, a: int, b: int)
    requires
        0 <= a <= b <= s.len(),
    ensures
        comps_view(s.subrange(a, b)) == comps_view(s).subrange(a, b),
{
    assert forall|k: int| 0 <= k < b - a implies comps_view(s.subrange(a, b))[k]
        == comps_view(s).subrange(a, b)[k] by {
        assert(s.subrange(a, b)[k] == s[a + k]);
    }
    assert(comps_view(s.subrange(a, b)) =~= comps_view(s).subrange(a, b));
}

/// Removing the front component commutes with taking the component view.
pub proof fn lemma_comps_view_remove0(s: Seq<Vec<u8>>)
    requires
        s.len() > 0,
    ensures
        comps_view(s.remove(0)) == comps_view(s).drop_first(),
{
    assert forall|k: int| 0 <= k < s.len() - 1 implies comps_view(s.remove(0))[k]
        == comps_view(s).drop_first()[k] by {
        assert(s.remove(0)[k] == s[k + 1]);
    }
    assert(comps_view(s.remove(0)) =~= comps_view(s).drop_first());
}

// ---------------------------------------------------------------------------
// Executable helpers, each proved against the model above.
// ---------------------------------------------------------------------------

/// Whether the byte string holds a NUL byte.
pub fn has_nul(s: &[u8]) -> (r: bool)
    ensures
        r == contains_nul(s@),
{
    let mut i: usize = 0;
    while i < s.len()
        invariant
            i <= s@.len(),
            forall|j: int| 0 <= j < i ==> s@[j] != 0,
        decreases s@.len() - i,
    {
        if s[i] == 0 {
            return true;
        }
        i += 1;
    }
    false
}

/// Byte-string equality.
pub fn bytes_eq(a: &[u8], b: &[u8]) -> (r: bool)
    ensures
        r == (a@ == b@),
{
    if a.len() != b.len() {
        proof {
            if a@ == b@ {
                assert(a@.len() == b@.len());
            }
        }
        return false;
    }
    let mut i: usize = 0;
    while i < a.len()
        invariant
            i <= a@.len(),
            a@.len() == b@.len(),
            forall|j: int| 0 <= j < i ==> a@[j] == b@[j],
        decreases a@.len() - i,
    {
        if a[i] != b[i] {
            proof {
                if a@ == b@ {
                    assert(a@[i as int] == b@[i as int]);
                }
            }
            return false;
        }
        i += 1;
    }
    proof {
        assert(a@ =~= b@);
    }
    true
}

/// Whether a component is `.`.
pub fn is_dot(c: &[u8]) -> (r: bool)
    ensures
        r == (c@ == dot()),
{
    let r = c.len() == 1 && c[0] == 46;
    proof {
        if r {
            assert(c@ =~= dot());
        } else if c@ == dot() {
            assert(c@.len() == 1);
            assert(c@[0] == 46);
        }
    }
    r
}

/// Whether a component is `..`.
pub fn is_dotdot(c: &[u8]) -> (r: bool)
    ensures
        r == (c@ == dotdot()),
{
    let r = c.len() == 2 && c[0] == 46 && c[1] == 46;
    proof {
        if r {
            assert(c@ =~= dotdot());
        } else if c@ == dotdot() {
            assert(c@.len() == 2);
            assert(c@[0] == 46);
            assert(c@[1] == 46);
        }
    }
    r
}

/// A fresh copy of a byte string.
pub fn clone_bytes(c: &[u8]) -> (r: Vec<u8>)
    ensures
        r@ == c@,
{
    let mut out: Vec<u8> = Vec::new();
    let mut i: usize = 0;
    while i < c.len()
        invariant
            i <= c@.len(),
            out@ == c@.subrange(0, i as int),
        decreases c@.len() - i,
    {
        out.push(c[i]);
        proof {
            assert(out@ =~= c@.subrange(0, i + 1));
        }
        i += 1;
    }
    proof {
        assert(out@ =~= c@);
    }
    out
}

/// A fresh copy of a component vector.
pub fn clone_comps(v: &Vec<Vec<u8>>) -> (r: Vec<Vec<u8>>)
    ensures
        comps_view(r@) == comps_view(v@),
{
    let mut out: Vec<Vec<u8>> = Vec::new();
    let mut i: usize = 0;
    while i < v.len()
        invariant
            i <= v@.len(),
            comps_view(out@) == comps_view(v@).subrange(0, i as int),
        decreases v@.len() - i,
    {
        let c = clone_bytes(v[i].as_slice());
        let ghost prev = out@;
        let ghost cg = c;
        out.push(c);
        proof {
            lemma_comps_view_push(prev, cg);
            assert(comps_view(out@) =~= comps_view(v@).subrange(0, i + 1));
        }
        i += 1;
    }
    proof {
        assert(comps_view(out@) =~= comps_view(v@));
    }
    out
}

/// Splits a byte path into its components, dropping empty segments.
pub fn split_path(s: &[u8]) -> (r: Vec<Vec<u8>>)
    ensures
        comps_view(r@) == split_comps(s@),
{
    let mut out: Vec<Vec<u8>> = Vec::new();
    let mut cur: Vec<u8> = Vec::new();
    let mut i: usize = 0;
    while i < s.len()
        invariant
            i <= s@.len(),
            split_comps(s@) == comps_view(out@) + split_from(s@, i as int, cur@),
        decreases s@.len() - i,
    {
        let b = s[i];
        if b == 47 {
            if cur.len() > 0 {
                let ghost prev_out = out@;
                let ghost prev_cur = cur@;
                let ghost curg = cur;
                out.push(cur);
                cur = Vec::new();
                proof {
                    lemma_comps_view_push(prev_out, curg);
                    assert(comps_view(out@) =~= comps_view(prev_out).push(prev_cur));
                    assert(split_from(s@, i as int, prev_cur) == seq![prev_cur] + split_from(
                        s@,
                        i + 1,
                        seq![],
                    ));
                    assert(cur@ =~= Seq::<u8>::empty());
                    assert(comps_view(out@) + split_from(s@, i + 1, cur@) =~= comps_view(prev_out)
                        + split_from(s@, i as int, prev_cur));
                }
            } else {
                proof {
                    assert(cur@ =~= Seq::<u8>::empty());
                    assert(split_from(s@, i as int, cur@) == split_from(s@, i + 1, seq![]));
                }
            }
        } else {
            cur.push(b);
        }
        i += 1;
    }
    if cur.len() > 0 {
        let ghost prev_out = out@;
        let ghost prev_cur = cur@;
        let ghost curg = cur;
        out.push(cur);
        proof {
            lemma_comps_view_push(prev_out, curg);
            assert(comps_view(out@) =~= comps_view(prev_out).push(prev_cur));
            assert(split_from(s@, s@.len() as int, prev_cur) == seq![prev_cur]);
            assert(comps_view(prev_out) + seq![prev_cur] =~= comps_view(out@));
        }
    } else {
        proof {
            assert(split_from(s@, s@.len() as int, cur@) =~= Seq::<Seq<u8>>::empty());
            assert(comps_view(out@) + Seq::<Seq<u8>>::empty() =~= comps_view(out@));
        }
    }
    out
}

/// Every component split out of a NUL-free byte string is valid: splitting
/// never yields an empty component, a `/`, or (absent NUL in the input) a
/// NUL byte.
pub proof fn lemma_split_from_valid(s: Seq<u8>, i: int, cur: Seq<u8>)
    requires
        0 <= i <= s.len(),
        forall|j: int| i <= j < s.len() ==> s[j] != 0,
        forall|k: int| 0 <= k < cur.len() ==> valid_byte(#[trigger] cur[k]),
    ensures
        all_valid(split_from(s, i, cur)),
    decreases s.len() - i,
{
    if i >= s.len() {
        if cur.len() == 0 {
        } else {
            assert(valid_component(cur));
            assert forall|k: int| 0 <= k < split_from(s, i, cur).len() implies valid_component(
                #[trigger] split_from(s, i, cur)[k],
            ) by {
                assert(split_from(s, i, cur)[k] == cur);
            }
        }
    } else if s[i] == 47 {
        lemma_split_from_valid(s, i + 1, Seq::<u8>::empty());
        if cur.len() == 0 {
            assert(split_from(s, i, cur) == split_from(s, i + 1, seq![]));
            assert(seq![] =~= Seq::<u8>::empty());
        } else {
            assert(valid_component(cur));
            let rest = split_from(s, i + 1, Seq::<u8>::empty());
            assert(seq![] =~= Seq::<u8>::empty());
            assert(split_from(s, i, cur) == seq![cur] + rest);
            assert forall|k: int| 0 <= k < (seq![cur] + rest).len() implies valid_component(
                #[trigger] (seq![cur] + rest)[k],
            ) by {
                if k == 0 {
                    assert((seq![cur] + rest)[k] == cur);
                } else {
                    assert((seq![cur] + rest)[k] == rest[k - 1]);
                    assert(valid_component(rest[k - 1]));
                }
            }
        }
    } else {
        assert(valid_byte(s[i]));
        lemma_split_from_valid(s, i + 1, cur.push(s[i]));
    }
}

/// Splitting a NUL-free byte path yields only valid components.
pub proof fn lemma_split_valid(s: Seq<u8>)
    requires
        !contains_nul(s),
    ensures
        all_valid(split_comps(s)),
{
    assert forall|j: int| 0 <= j < s.len() implies s[j] != 0 by {
        if s[j] == 0 {
            assert(contains_nul(s));
        }
    }
    lemma_split_from_valid(s, 0, seq![]);
}

/// `comps_bytes` distributes over concatenation of component sequences.
pub proof fn lemma_comps_bytes_concat(a: Seq<Seq<u8>>, b: Seq<Seq<u8>>)
    ensures
        comps_bytes(a + b) == comps_bytes(a) + comps_bytes(b),
    decreases a.len(),
{
    if a.len() == 0 {
        assert(a + b =~= b);
        assert(comps_bytes(a) + comps_bytes(b) =~= comps_bytes(b));
    } else {
        assert((a + b).drop_first() =~= a.drop_first() + b);
        lemma_comps_bytes_concat(a.drop_first(), b);
        assert((a + b).len() > 0);
        assert((a + b)[0] == a[0]);
        assert(comps_bytes(a + b) == seq![47u8] + a[0] + (comps_bytes(a.drop_first())
            + comps_bytes(b)));
        assert(seq![47u8] + a[0] + (comps_bytes(a.drop_first()) + comps_bytes(b)) =~= (seq![47u8]
            + a[0] + comps_bytes(a.drop_first())) + comps_bytes(b));
    }
}

/// Builds the bytes `/c0/c1/...` of a component vector.
pub fn comps_to_bytes(cs: &Vec<Vec<u8>>) -> (r: Vec<u8>)
    ensures
        r@ == comps_bytes(comps_view(cs@)),
{
    let mut out: Vec<u8> = Vec::new();
    let mut i: usize = 0;
    proof {
        assert(comps_view(cs@).subrange(0, 0) =~= Seq::<Seq<u8>>::empty());
        assert(out@ =~= comps_bytes(comps_view(cs@).subrange(0, 0)));
    }
    while i < cs.len()
        invariant
            i <= cs@.len(),
            out@ == comps_bytes(comps_view(cs@).subrange(0, i as int)),
        decreases cs@.len() - i,
    {
        let ghost done = comps_view(cs@).subrange(0, i as int);
        out.push(47);
        let mut j: usize = 0;
        while j < cs[i].len()
            invariant
                i < cs@.len(),
                j <= cs@[i as int]@.len(),
                out@ == comps_bytes(done) + seq![47u8] + cs@[i as int]@.subrange(0, j as int),
            decreases cs@[i as int]@.len() - j,
        {
            let b = cs[i][j];
            out.push(b);
            proof {
                assert(out@ =~= comps_bytes(done) + seq![47u8] + cs@[i as int]@.subrange(
                    0,
                    j + 1,
                ));
            }
            j += 1;
        }
        proof {
            let c = cs@[i as int]@;
            assert(c.subrange(0, c.len() as int) =~= c);
            lemma_comps_bytes_concat(done, seq![c]);
            assert(comps_bytes(seq![c]) == seq![47u8] + c + comps_bytes(
                seq![c].drop_first(),
            ));
            assert(seq![c].drop_first() =~= Seq::<Seq<u8>>::empty());
            assert(comps_bytes(Seq::<Seq<u8>>::empty()) =~= Seq::<u8>::empty());
            assert(comps_view(cs@).subrange(0, i + 1) =~= done + seq![c]);
            assert(out@ =~= comps_bytes(comps_view(cs@).subrange(0, i + 1)));
        }
        i += 1;
    }
    proof {
        assert(comps_view(cs@).subrange(0, cs@.len() as int) =~= comps_view(cs@));
    }
    out
}

/// Builds the absolute byte path of a component vector (`/` when empty).
pub fn comps_to_abs(cs: &Vec<Vec<u8>>) -> (r: Vec<u8>)
    ensures
        r@ == abs_bytes(comps_view(cs@)),
{
    if cs.len() == 0 {
        let mut out: Vec<u8> = Vec::new();
        out.push(47);
        proof {
            assert(out@ =~= seq![47u8]);
        }
        out
    } else {
        comps_to_bytes(cs)
    }
}

/// Builds the relative byte path of a component vector (empty when empty).
pub fn comps_to_rel(cs: &Vec<Vec<u8>>) -> (r: Vec<u8>)
    ensures
        r@ == rel_bytes(comps_view(cs@)),
{
    if cs.len() == 0 {
        let out: Vec<u8> = Vec::new();
        proof {
            assert(out@ =~= rel_bytes(comps_view(cs@)));
        }
        return out;
    }
    let mut out = clone_bytes(cs[0].as_slice());
    let mut i: usize = 1;
    proof {
        assert(comps_view(cs@).subrange(1, 1) =~= Seq::<Seq<u8>>::empty());
        assert(out@ =~= cs@[0]@ + comps_bytes(comps_view(cs@).subrange(1, 1)));
    }
    while i < cs.len()
        invariant
            1 <= i <= cs@.len(),
            out@ == cs@[0]@ + comps_bytes(comps_view(cs@).subrange(1, i as int)),
        decreases cs@.len() - i,
    {
        let ghost done = comps_view(cs@).subrange(1, i as int);
        out.push(47);
        let mut j: usize = 0;
        while j < cs[i].len()
            invariant
                1 <= i < cs@.len(),
                j <= cs@[i as int]@.len(),
                out@ == cs@[0]@ + comps_bytes(done) + seq![47u8] + cs@[i as int]@.subrange(
                    0,
                    j as int,
                ),
            decreases cs@[i as int]@.len() - j,
        {
            let b = cs[i][j];
            out.push(b);
            proof {
                assert(out@ =~= cs@[0]@ + comps_bytes(done) + seq![47u8]
                    + cs@[i as int]@.subrange(0, j + 1));
            }
            j += 1;
        }
        proof {
            let c = cs@[i as int]@;
            assert(c.subrange(0, c.len() as int) =~= c);
            lemma_comps_bytes_concat(done, seq![c]);
            assert(comps_bytes(seq![c]) == seq![47u8] + c + comps_bytes(seq![c].drop_first()));
            assert(seq![c].drop_first() =~= Seq::<Seq<u8>>::empty());
            assert(comps_bytes(Seq::<Seq<u8>>::empty()) =~= Seq::<u8>::empty());
            assert(comps_view(cs@).subrange(1, i + 1) =~= done + seq![c]);
            assert(out@ =~= cs@[0]@ + comps_bytes(comps_view(cs@).subrange(1, i + 1)));
        }
        i += 1;
    }
    proof {
        assert(comps_view(cs@).subrange(1, cs@.len() as int) =~= comps_view(cs@).drop_first());
        assert(comps_view(cs@)[0] == cs@[0]@);
        assert(out@ =~= rel_bytes(comps_view(cs@)));
    }
    out
}

/// Whether every component of an already-valid component vector is normal,
/// i.e. none is `.` or `..`.
pub fn all_normal_check(cs: &Vec<Vec<u8>>) -> (b: bool)
    requires
        all_valid(comps_view(cs@)),
    ensures
        b == all_normal(comps_view(cs@)),
{
    let mut i: usize = 0;
    while i < cs.len()
        invariant
            i <= cs@.len(),
            all_valid(comps_view(cs@)),
            forall|j: int| 0 <= j < i ==> normal_component(#[trigger] comps_view(cs@)[j]),
        decreases cs@.len() - i,
    {
        if is_dot(cs[i].as_slice()) || is_dotdot(cs[i].as_slice()) {
            proof {
                assert(!normal_component(comps_view(cs@)[i as int]));
            }
            return false;
        }
        proof {
            assert(valid_component(comps_view(cs@)[i as int]));
        }
        i += 1;
    }
    true
}

/// Component-wise prefix test.
pub fn comps_is_prefix(pre: &Vec<Vec<u8>>, s: &Vec<Vec<u8>>) -> (r: bool)
    ensures
        r == is_prefix_of(comps_view(pre@), comps_view(s@)),
{
    if pre.len() > s.len() {
        return false;
    }
    let mut i: usize = 0;
    while i < pre.len()
        invariant
            i <= pre@.len(),
            pre@.len() <= s@.len(),
            forall|j: int| 0 <= j < i ==> comps_view(pre@)[j] == comps_view(s@)[j],
        decreases pre@.len() - i,
    {
        if !bytes_eq(pre[i].as_slice(), s[i].as_slice()) {
            proof {
                assert(comps_view(pre@)[i as int] != comps_view(s@)[i as int]);
            }
            return false;
        }
        i += 1;
    }
    true
}

} // verus!
