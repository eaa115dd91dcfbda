//! Relative paths as byte strings: which ones an archive may hold, and where
//! they land under a base directory.
use vstd::prelude::*;

verus! {

pub const SLASH: u8 = 0x2f;

pub const DOT: u8 = 0x2e;

/// Whether a segment of `p` starts at index `i`.
pub open spec fn seg_start(p: Seq<u8>, i: int) -> bool {
    i == 0 || p[i - 1] == SLASH
}

/// Whether the segment that starts at `i` is a normal one: not empty, not `.`
/// and not `..`.
pub open spec fn segment_ok(p: Seq<u8>, i: int) -> bool {
    &&& i < p.len()
    &&& p[i] != SLASH
    &&& !(p[i] == DOT && (i + 1 == p.len() || p[i + 1] == SLASH))
    &&& !(p[i] == DOT && i + 1 < p.len() && p[i + 1] == DOT && (i + 2 == p.len() || p[i + 2]
        == SLASH))
}

/// A strictly relative path: not empty, free of NUL bytes (which no Unix path
/// holds), and every segment normal. This rules
/// out a leading `/` (an empty first segment), `//`, a trailing `/`, `.` and `..`.
pub open spec fn path_is_normal(p: Seq<u8>) -> bool {
    &&& p.len() > 0
    &&& forall|i: int| 0 <= i < p.len() ==> p[i] != 0
    &&& forall|i: int| 0 <= i <= p.len() && #[trigger] seg_start(p, i) ==> segment_ok(p, i)
}

/// `rel` placed under `base`, with one separator between them.
pub open spec fn join(base: Seq<u8>, rel: Seq<u8>) -> Seq<u8> {
    if base.len() == 0 {
        rel
    } else if base.last() == SLASH {
        base + rel
    } else {
        base + seq![SLASH] + rel
    }
}

/// Index of the last separator of `p`, or -1.
pub open spec fn last_sep(p: Seq<u8>) -> int
    decreases p.len(),
{
    if p.len() == 0 {
        -1
    } else if p.last() == SLASH {
        p.len() - 1
    } else {
        last_sep(p.drop_last())
    }
}

/// The directory part of `p`: what stands before its last separator.
pub open spec fn parent_of(p: Seq<u8>) -> Seq<u8> {
    if last_sep(p) < 0 {
        seq![]
    } else {
        p.subrange(0, last_sep(p))
    }
}

/// The last segment of `p`.
pub open spec fn file_name_of(p: Seq<u8>) -> Seq<u8> {
    p.subrange(last_sep(p) + 1, p.len() as int)
}

/// The bytes `.pkgar.` that begin every staging name.
pub open spec fn stage_prefix() -> Seq<u8> {
    seq![DOT, 0x70u8, 0x6bu8, 0x67u8, 0x61u8, 0x72u8, DOT]
}

/// `name` as a sibling of `target`: in the same directory.
pub open spec fn sibling(target: Seq<u8>, name: Seq<u8>) -> Seq<u8> {
    if last_sep(target) < 0 {
        name
    } else {
        parent_of(target) + seq![SLASH] + name
    }
}

/// The staging name taken from the target's own name.
pub open spec fn stage_by_name(target: Seq<u8>) -> Seq<u8> {
    sibling(target, stage_prefix() + file_name_of(target))
}

/// The staging name taken from a hex digest, for when the first is taken.
pub open spec fn stage_by_hash(target: Seq<u8>, hex: Seq<u8>) -> Seq<u8> {
    sibling(target, stage_prefix() + hex)
}

proof fn lemma_last_sep_bounds(p: Seq<u8>)
    ensures
        -1 <= last_sep(p) < p.len(),
        last_sep(p) >= 0 ==> p[last_sep(p)] == SLASH,
        forall|j: int| last_sep(p) < j < p.len() ==> p[j] != SLASH,
    decreases p.len(),
{
    if p.len() > 0 && p.last() != SLASH {
        lemma_last_sep_bounds(p.drop_last());
        assert forall|j: int| last_sep(p) < j < p.len() implies p[j] != SLASH by {
            if j < p.len() - 1 {
                assert(p.drop_last()[j] == p[j]);
            }
        }
    }
}

proof fn lemma_last_sep_from(p: Seq<u8>, i: int)
    requires
        0 <= i <= p.len(),
        forall|j: int| i <= j < p.len() ==> p[j] != SLASH,
    ensures
        last_sep(p) == last_sep(p.subrange(0, i)),
    decreases p.len() - i,
{
    if i < p.len() {
        assert(p.drop_last() =~= p.subrange(0, p.len() - 1));
        lemma_last_sep_from(p.drop_last(), i);
        assert(p.drop_last().subrange(0, i) =~= p.subrange(0, i));
    } else {
        assert(p.subrange(0, i) =~= p);
    }
}

/// Index just after the last separator of `p` (0 when it has none).
pub fn name_start(p: &[u8]) -> (r: usize)
    ensures
        r == last_sep(p@) + 1,
        r <= p@.len(),
{
    let mut i: usize = p.len();
    while i > 0 && p[i - 1] != SLASH
        invariant
            0 <= i <= p@.len(),
            forall|j: int| i <= j < p@.len() ==> p@[j] != SLASH,
        decreases i,
    {
        i -= 1;
    }
    proof {
        lemma_last_sep_from(p@, i as int);
        let q = p@.subrange(0, i as int);
        if i > 0 {
            assert(q.last() == SLASH);
        }
    }
    i
}

/// Checks that `path` is strictly relative with only normal segments.
pub fn check_path(path: &[u8]) -> (r: Result<(), crate::Error>)
    ensures
        r is Ok <==> path_is_normal(path@),
        r matches Err(e) ==> e matches crate::Error::InvalidPathComponent { .. },
{
    let n = path.len();
    if n == 0 || path[n - 1] == SLASH {
        proof {
            if n > 0 {
                assert(seg_start(path@, n as int));
            }
        }
        return Err(crate::Error::InvalidPathComponent { path: crate::bytes::to_vec(path) });
    }
    let mut i: usize = 0;
    while i < n
        invariant
            0 < n == path@.len(),
            path@[n - 1] != SLASH,
            0 <= i <= n,
            forall|j: int| 0 <= j < i && #[trigger] seg_start(path@, j) ==> segment_ok(path@, j),
            forall|j: int| 0 <= j < i ==> path@[j] != 0,
        decreases n - i,
    {
        if path[i] == 0 {
            return Err(crate::Error::InvalidPathComponent { path: crate::bytes::to_vec(path) });
        }
        let start = i == 0 || path[i - 1] == SLASH;
        if start {
            let bad = path[i] == SLASH || (path[i] == DOT && (i + 1 == n || path[i + 1] == SLASH))
                || (path[i] == DOT && i + 1 < n && path[i + 1] == DOT && (i + 2 == n || path[i + 2]
                == SLASH));
            if bad {
                assert(seg_start(path@, i as int));
                return Err(crate::Error::InvalidPathComponent { path: crate::bytes::to_vec(path) });
            }
        }
        i += 1;
    }
    assert forall|j: int| 0 <= j <= path@.len() && #[trigger] seg_start(path@, j) implies segment_ok(
        path@,
        j,
    ) by {
        if j == n {
            assert(path@[j - 1] != SLASH);
        }
    }
    Ok(())
}

/// Places `rel` under `base`.
pub fn join_path(base: &[u8], rel: &[u8]) -> (r: Vec<u8>)
    ensures
        r@ == join(base@, rel@),
{
    let mut out = crate::bytes::to_vec(base);
    if base.len() > 0 && base[base.len() - 1] != SLASH {
        out.push(SLASH);
    }
    crate::bytes::push_all(&mut out, rel);
    out
}

/// A sibling of `target` named `name`.
fn sibling_path(target: &[u8], name: &[u8]) -> (r: Vec<u8>)
    ensures
        r@ == sibling(target@, name@),
{
    let start = name_start(target);
    if start == 0 {
        crate::bytes::to_vec(name)
    } else {
        let mut out = crate::bytes::to_vec(&target[0..start - 1]);
        out.push(SLASH);
        crate::bytes::push_all(&mut out, name);
        out
    }
}

fn stage_prefix_bytes() -> (r: Vec<u8>)
    ensures
        r@ == stage_prefix(),
{
    let r = vec![DOT, 0x70u8, 0x6bu8, 0x67u8, 0x61u8, 0x72u8, DOT];
    assert(r@ =~= stage_prefix());
    r
}

/// `<parent>/.pkgar.<name>`: the first staging name tried for `target`.
pub fn stage_name_path(target: &[u8]) -> (r: Vec<u8>)
    ensures
        r@ == stage_by_name(target@),
{
    let start = name_start(target);
    let mut name = stage_prefix_bytes();
    crate::bytes::push_all(&mut name, &target[start..target.len()]);
    sibling_path(target, &name)
}

/// `<parent>/.pkgar.<hex>`: the staging name used when the first is taken.
pub fn stage_hash_path(target: &[u8], hex: &[u8]) -> (r: Vec<u8>)
    ensures
        r@ == stage_by_hash(target@, hex@),
{
    let mut name = stage_prefix_bytes();
    crate::bytes::push_all(&mut name, hex);
    sibling_path(target, &name)
}

/// A normal path placed under any base stays under it: the result begins
/// with the base, and what follows (after at most one separator) is the
/// normal path itself, which holds no `..` and no root.
pub proof fn lemma_join_stays_within(base: Seq<u8>, rel: Seq<u8>)
    requires
        path_is_normal(rel),
    ensures
        join(base, rel).len() >= base.len() + rel.len(),
        join(base, rel).subrange(0, base.len() as int) == base,
        join(base, rel).subrange(join(base, rel).len() - rel.len(), join(base, rel).len() as int)
            == rel,
        join(base, rel).len() - rel.len() - base.len() <= 1,
        rel[0] != SLASH,
{
    assert(seg_start(rel, 0));
    let j = join(base, rel);
    assert(j.subrange(0, base.len() as int) =~= base);
    assert(j.subrange(j.len() - rel.len(), j.len() as int) =~= rel);
}

/// Whether `p` names a staging file: its last segment begins with `.pkgar.`.
pub open spec fn is_stage_path(p: Seq<u8>) -> bool {
    let name = file_name_of(p);
    name.len() >= 7 && name.take(7) == stage_prefix()
}

/// Whether `s` holds no separator.
pub open spec fn no_sep(s: Seq<u8>) -> bool {
    forall|k: int| 0 <= k < s.len() ==> s[k] != SLASH
}

/// The last segment of a sibling named `name` is `name`, if `name` holds no
/// separator.
pub proof fn lemma_sibling_name(target: Seq<u8>, name: Seq<u8>)
    requires
        no_sep(name),
    ensures
        file_name_of(sibling(target, name)) == name,
{
    let s = sibling(target, name);
    if last_sep(target) < 0 {
        lemma_last_sep_from(name, 0);
        assert(name.subrange(0, 0).len() == 0);
        assert(name.subrange(0, name.len() as int) =~= name);
    } else {
        lemma_last_sep_bounds(target);
        let parent = parent_of(target);
        let cut: int = parent.len() as int + 1;
        assert forall|j: int| cut <= j < s.len() implies s[j] != SLASH by {
            assert(s[j] == name[j - cut]);
        }
        lemma_last_sep_from(s, cut);
        let pre = s.subrange(0, cut);
        assert(pre.last() == SLASH);
        assert(last_sep(pre) == parent.len());
        assert(s.subrange(cut, s.len() as int) =~= name);
    }
}

/// The last segment of a path holds no separator.
pub proof fn lemma_file_name_no_sep(p: Seq<u8>)
    ensures
        no_sep(file_name_of(p)),
{
    lemma_last_sep_bounds(p);
    assert forall|k: int| 0 <= k < file_name_of(p).len() implies file_name_of(p)[k] != SLASH by {
        assert(file_name_of(p)[k] == p[last_sep(p) + 1 + k]);
    }
}

/// Lowercase hex digits hold no separator.
pub proof fn lemma_hex_no_sep(b: Seq<u8>)
    ensures
        no_sep(crate::crypto::hex_of(b)),
    decreases b.len(),
{
    if b.len() > 0 {
        lemma_hex_no_sep(b.drop_first());
        let h = crate::crypto::hex_of(b);
        let rest = crate::crypto::hex_of(b.drop_first());
        assert forall|k: int| 0 <= k < h.len() implies h[k] != SLASH by {
            if k >= 2 {
                assert(h[k] == rest[k - 2]);
            }
        }
    }
}

/// Both staging names of a target are staging paths.
pub proof fn lemma_stage_names(target: Seq<u8>, hex: Seq<u8>)
    requires
        no_sep(hex),
    ensures
        is_stage_path(stage_by_name(target)),
        is_stage_path(stage_by_hash(target, hex)),
{
    lemma_file_name_no_sep(target);
    let n1 = stage_prefix() + file_name_of(target);
    let n2 = stage_prefix() + hex;
    assert forall|k: int| 0 <= k < n1.len() implies n1[k] != SLASH by {
        if k >= 7 {
            assert(n1[k] == file_name_of(target)[k - 7]);
        }
    }
    assert forall|k: int| 0 <= k < n2.len() implies n2[k] != SLASH by {
        if k >= 7 {
            assert(n2[k] == hex[k - 7]);
        }
    }
    lemma_sibling_name(target, n1);
    lemma_sibling_name(target, n2);
    assert(n1.take(7) =~= stage_prefix());
    assert(n2.take(7) =~= stage_prefix());
}

} // verus!
