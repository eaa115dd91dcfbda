//! Byte-wise lexicographic order, and a stable sort of indices by it.
use vstd::prelude::*;

verus! {

/// `a` sorts strictly before `b`, byte by byte, a proper prefix first.
pub open spec fn lex_lt(a: Seq<u8>, b: Seq<u8>) -> bool
    decreases a.len(),
{
    if b.len() == 0 {
        false
    } else if a.len() == 0 {
        true
    } else if a[0] != b[0] {
        a[0] < b[0]
    } else {
        lex_lt(a.drop_first(), b.drop_first())
    }
}

/// `x` placed in `s` before the first index whose key it sorts strictly
/// before; after every index whose key is not greater.
pub open spec fn insert_by_key(keys: Seq<Seq<u8>>, x: int, s: Seq<int>) -> Seq<int>
    decreases s.len(),
{
    if s.len() == 0 {
        seq![x]
    } else if lex_lt(keys[x], keys[s[0]]) {
        seq![x] + s
    } else {
        seq![s[0]] + insert_by_key(keys, x, s.drop_first())
    }
}

/// The indices `0..n`, stably sorted by their keys.
pub open spec fn sorted_indices(keys: Seq<Seq<u8>>, n: nat) -> Seq<int>
    decreases n,
{
    if n == 0 {
        seq![]
    } else {
        insert_by_key(keys, n - 1, sorted_indices(keys, (n - 1) as nat))
    }
}

proof fn lemma_lex_step(a: Seq<u8>, b: Seq<u8>, i: int)
    requires
        0 <= i < a.len(),
        i < b.len(),
        a[i] == b[i],
    ensures
        lex_lt(a.skip(i), b.skip(i)) == lex_lt(a.skip(i + 1), b.skip(i + 1)),
{
    assert(a.skip(i).drop_first() =~= a.skip(i + 1));
    assert(b.skip(i).drop_first() =~= b.skip(i + 1));
}

/// Whether `a` sorts strictly before `b`.
pub fn lex_less(a: &[u8], b: &[u8]) -> (r: bool)
    ensures
        r == lex_lt(a@, b@),
{
    let mut i: usize = 0;
    assert(a@.skip(0) =~= a@);
    assert(b@.skip(0) =~= b@);
    while i < a.len() && i < b.len() && a[i] == b[i]
        invariant
            0 <= i <= a@.len(),
            i <= b@.len(),
            lex_lt(a@, b@) == lex_lt(a@.skip(i as int), b@.skip(i as int)),
        decreases a@.len() - i,
    {
        proof {
            lemma_lex_step(a@, b@, i as int);
        }
        i += 1;
    }
    if i == b.len() {
        assert(b@.skip(i as int).len() == 0);
        false
    } else if i == a.len() {
        assert(a@.skip(i as int).len() == 0);
        true
    } else {
        assert(a@.skip(i as int)[0] == a@[i as int]);
        assert(b@.skip(i as int)[0] == b@[i as int]);
        a[i] < b[i]
    }
}

proof fn lemma_insert_at(keys: Seq<Seq<u8>>, x: int, s: Seq<int>, p: int)
    requires
        0 <= p <= s.len(),
        forall|j: int| 0 <= j < p ==> !lex_lt(keys[x], keys[s[j]]),
        p == s.len() || lex_lt(keys[x], keys[s[p]]),
    ensures
        insert_by_key(keys, x, s) == s.take(p) + seq![x] + s.skip(p),
    decreases s.len(),
{
    if s.len() == 0 {
        assert(s.take(p) + seq![x] + s.skip(p) =~= seq![x]);
    } else if p == 0 {
        assert(s.take(p) + seq![x] + s.skip(p) =~= seq![x] + s);
    } else {
        let t = s.drop_first();
        assert forall|j: int| 0 <= j < p - 1 implies !lex_lt(keys[x], keys[t[j]]) by {
            assert(t[j] == s[j + 1]);
        }
        if p < s.len() {
            assert(t[p - 1] == s[p]);
        }
        lemma_insert_at(keys, x, t, p - 1);
        assert(seq![s[0]] + (t.take(p - 1) + seq![x] + t.skip(p - 1)) =~= s.take(p) + seq![x]
            + s.skip(p));
    }
}

proof fn lemma_insert_members(keys: Seq<Seq<u8>>, x: int, s: Seq<int>)
    ensures
        insert_by_key(keys, x, s).len() == s.len() + 1,
        forall|j: int|
            0 <= j < insert_by_key(keys, x, s).len() ==> #[trigger] insert_by_key(keys, x, s)[j]
                == x || s.contains(insert_by_key(keys, x, s)[j]),
    decreases s.len(),
{
    if s.len() > 0 && !lex_lt(keys[x], keys[s[0]]) {
        let t = s.drop_first();
        lemma_insert_members(keys, x, t);
        let r = insert_by_key(keys, x, s);
        assert forall|j: int| 0 <= j < r.len() implies #[trigger] r[j] == x || s.contains(r[j]) by {
            if j > 0 {
                let k = r[j];
                assert(r[j] == insert_by_key(keys, x, t)[j - 1]);
                if k != x {
                    let w = choose|w: int| 0 <= w < t.len() && t[w] == k;
                    assert(s[w + 1] == k);
                }
            } else {
                assert(s[0] == r[0]);
            }
        }
    } else if s.len() > 0 {
        let r = insert_by_key(keys, x, s);
        assert forall|j: int| 0 <= j < r.len() implies #[trigger] r[j] == x || s.contains(r[j]) by {
            if j > 0 {
                assert(r[j] == s[j - 1]);
            }
        }
    }
}

/// Every index of a stable sort of `0..n` is below `n`.
pub proof fn lemma_sorted_indices_range(keys: Seq<Seq<u8>>, n: nat)
    ensures
        sorted_indices(keys, n).len() == n,
        forall|j: int|
            0 <= j < n ==> 0 <= #[trigger] sorted_indices(keys, n)[j] < n,
    decreases n,
{
    if n > 0 {
        let prev = sorted_indices(keys, (n - 1) as nat);
        lemma_sorted_indices_range(keys, (n - 1) as nat);
        lemma_insert_members(keys, n - 1, prev);
        let r = sorted_indices(keys, n);
        assert forall|j: int| 0 <= j < n implies 0 <= #[trigger] r[j] < n by {
            if r[j] != n - 1 {
                let w = choose|w: int| 0 <= w < prev.len() && prev[w] == r[j];
                assert(0 <= prev[w] < n - 1);
            }
        }
    }
}

/// The indices of `keys`, stably sorted by key.
pub fn sorted_order(keys: &Vec<Vec<u8>>) -> (r: Vec<usize>)
    ensures
        r@.len() == keys@.len(),
        forall|j: int| 0 <= j < r@.len() ==> r@[j] as int == sorted_indices(keys_view(keys@), keys@.len())[j],
        forall|j: int| 0 <= j < r@.len() ==> #[trigger] r@[j] < keys@.len(),
{
    let ghost kv = keys_view(keys@);
    let mut order: Vec<usize> = Vec::new();
    let mut k: usize = 0;
    while k < keys.len()
        invariant
            kv == keys_view(keys@),
            0 <= k <= keys@.len(),
            order@.len() == k,
            forall|j: int| 0 <= j < k ==> order@[j] as int == sorted_indices(kv, k as nat)[j],
            forall|j: int| 0 <= j < k ==> #[trigger] order@[j] < k,
        decreases keys@.len() - k,
    {
        let ghost s = sorted_indices(kv, k as nat);
        proof {
            lemma_sorted_indices_range(kv, k as nat);
        }
        let mut p: usize = 0;
        while p < order.len() && !lex_less(keys[k].as_slice(), keys[order[p]].as_slice())
            invariant
                kv == keys_view(keys@),
                k < keys@.len(),
                0 <= p <= order@.len(),
                order@.len() == k,
                s == sorted_indices(kv, k as nat),
                s.len() == k,
                forall|j: int| 0 <= j < k ==> 0 <= #[trigger] s[j] < k,
                forall|j: int| 0 <= j < k ==> order@[j] as int == s[j],
                forall|j: int| 0 <= j < k ==> #[trigger] order@[j] < k,
                forall|j: int| 0 <= j < p ==> !lex_lt(kv[k as int], kv[s[j]]),
            decreases order@.len() - p,
        {
            p += 1;
        }
        proof {
            lemma_sorted_indices_range(kv, k as nat);
            lemma_insert_at(kv, k as int, s, p as int);
        }
        order.insert(p, k);
        proof {
            let t = sorted_indices(kv, (k + 1) as nat);
            assert(t == s.take(p as int) + seq![k as int] + s.skip(p as int));
            assert forall|j: int| 0 <= j < k + 1 implies order@[j] as int == t[j] by {
                if j < p {
                } else if j == p {
                }
            }
        }
        k += 1;
    }
    order
}

/// The keys as byte sequences.
pub open spec fn keys_view(keys: Seq<Vec<u8>>) -> Seq<Seq<u8>> {
    keys.map_values(|k: Vec<u8>| k@)
}

/// `s` lists indices in order of their keys: no later key sorts before an
/// earlier one.
pub open spec fn sorted_by(keys: Seq<Seq<u8>>, s: Seq<int>) -> bool {
    forall|i: int, j: int| 0 <= i < j < s.len() ==> !lex_lt(#[trigger] keys[s[j]], #[trigger] keys[s[i]])
}

/// `s` lists each index below `n` exactly once.
pub open spec fn is_permutation(s: Seq<int>, n: int) -> bool {
    &&& s.len() == n
    &&& forall|i: int| 0 <= i < s.len() ==> 0 <= #[trigger] s[i] < n
    &&& forall|i: int, j: int| 0 <= i < j < s.len() ==> #[trigger] s[i] != #[trigger] s[j]
}

/// No two of the first `n` keys are equal.
pub open spec fn keys_distinct(keys: Seq<Seq<u8>>, n: int) -> bool {
    forall|i: int, j: int| 0 <= i < j < n ==> #[trigger] keys[i] != #[trigger] keys[j]
}

pub proof fn lemma_lex_irreflexive(a: Seq<u8>)
    ensures
        !lex_lt(a, a),
    decreases a.len(),
{
    if a.len() > 0 {
        lemma_lex_irreflexive(a.drop_first());
    }
}

pub proof fn lemma_lex_transitive(a: Seq<u8>, b: Seq<u8>, c: Seq<u8>)
    requires
        lex_lt(a, b),
        lex_lt(b, c),
    ensures
        lex_lt(a, c),
    decreases a.len(),
{
    if a.len() > 0 && b.len() > 0 && c.len() > 0 && a[0] == b[0] && b[0] == c[0] {
        lemma_lex_transitive(a.drop_first(), b.drop_first(), c.drop_first());
    }
}

pub proof fn lemma_lex_total(a: Seq<u8>, b: Seq<u8>)
    requires
        a != b,
    ensures
        lex_lt(a, b) || lex_lt(b, a),
    decreases a.len(),
{
    if a.len() > 0 && b.len() > 0 && a[0] == b[0] {
        if a.drop_first() == b.drop_first() {
            assert(a =~= seq![a[0]] + a.drop_first());
            assert(b =~= seq![b[0]] + b.drop_first());
        }
        lemma_lex_total(a.drop_first(), b.drop_first());
    } else if a.len() == 0 && b.len() == 0 {
        assert(a =~= b);
    }
}

pub proof fn lemma_lex_asymmetric(a: Seq<u8>, b: Seq<u8>)
    requires
        lex_lt(a, b),
    ensures
        !lex_lt(b, a),
{
    if lex_lt(b, a) {
        lemma_lex_transitive(a, b, a);
        lemma_lex_irreflexive(a);
    }
}

proof fn lemma_insert_sorted(keys: Seq<Seq<u8>>, x: int, s: Seq<int>)
    requires
        sorted_by(keys, s),
    ensures
        sorted_by(keys, insert_by_key(keys, x, s)),
    decreases s.len(),
{
    let r = insert_by_key(keys, x, s);
    if s.len() == 0 {
    } else if lex_lt(keys[x], keys[s[0]]) {
        assert forall|i: int, j: int| 0 <= i < j < r.len() implies !lex_lt(
            #[trigger] keys[r[j]],
            #[trigger] keys[r[i]],
        ) by {
            if i == 0 {
                assert(r[j] == s[j - 1]);
                if lex_lt(keys[s[j - 1]], keys[x]) {
                    if j - 1 == 0 {
                        lemma_lex_asymmetric(keys[x], keys[s[0]]);
                    } else {
                        lemma_lex_transitive(keys[s[j - 1]], keys[x], keys[s[0]]);
                        assert(!lex_lt(keys[s[j - 1]], keys[s[0]]));
                    }
                }
            } else {
                assert(r[i] == s[i - 1]);
                assert(r[j] == s[j - 1]);
            }
        }
    } else {
        let t = s.drop_first();
        assert forall|i: int, j: int| 0 <= i < j < t.len() implies !lex_lt(
            #[trigger] keys[t[j]],
            #[trigger] keys[t[i]],
        ) by {
            assert(t[i] == s[i + 1]);
            assert(t[j] == s[j + 1]);
        }
        lemma_insert_sorted(keys, x, t);
        lemma_insert_members(keys, x, t);
        let rest = insert_by_key(keys, x, t);
        assert forall|i: int, j: int| 0 <= i < j < r.len() implies !lex_lt(
            #[trigger] keys[r[j]],
            #[trigger] keys[r[i]],
        ) by {
            if i == 0 {
                assert(r[0] == s[0]);
                assert(r[j] == rest[j - 1]);
                if rest[j - 1] != x {
                    let w = choose|w: int| 0 <= w < t.len() && t[w] == rest[j - 1];
                    assert(t[w] == s[w + 1]);
                }
            } else {
                assert(r[i] == rest[i - 1]);
                assert(r[j] == rest[j - 1]);
            }
        }
    }
}

proof fn lemma_insert_distinct(keys: Seq<Seq<u8>>, x: int, s: Seq<int>)
    requires
        !s.contains(x),
        forall|i: int, j: int| 0 <= i < j < s.len() ==> #[trigger] s[i] != #[trigger] s[j],
    ensures
        forall|i: int, j: int|
            0 <= i < j < insert_by_key(keys, x, s).len() ==> #[trigger] insert_by_key(keys, x, s)[i]
                != #[trigger] insert_by_key(keys, x, s)[j],
    decreases s.len(),
{
    let r = insert_by_key(keys, x, s);
    if s.len() == 0 {
    } else if lex_lt(keys[x], keys[s[0]]) {
        assert forall|i: int, j: int| 0 <= i < j < r.len() implies #[trigger] r[i] != #[trigger] r[j] by {
            assert(r[j] == s[j - 1]);
            if i > 0 {
                assert(r[i] == s[i - 1]);
            }
        }
    } else {
        let t = s.drop_first();
        assert forall|i: int, j: int| 0 <= i < j < t.len() implies #[trigger] t[i] != #[trigger] t[j] by {
            assert(t[i] == s[i + 1]);
            assert(t[j] == s[j + 1]);
        }
        assert(!t.contains(x)) by {
            if t.contains(x) {
                let w = choose|w: int| 0 <= w < t.len() && t[w] == x;
                assert(s[w + 1] == x);
            }
        }
        lemma_insert_distinct(keys, x, t);
        lemma_insert_members(keys, x, t);
        let rest = insert_by_key(keys, x, t);
        assert forall|i: int, j: int| 0 <= i < j < r.len() implies #[trigger] r[i] != #[trigger] r[j] by {
            if i == 0 {
                assert(r[0] == s[0]);
                assert(r[j] == rest[j - 1]);
                if rest[j - 1] != x {
                    let w = choose|w: int| 0 <= w < t.len() && t[w] == rest[j - 1];
                    assert(t[w] == s[w + 1]);
                } else {
                    assert(s[0] != x);
                }
            } else {
                assert(r[i] == rest[i - 1]);
                assert(r[j] == rest[j - 1]);
            }
        }
    }
}

/// The stable sort of `0..n` is a permutation of `0..n`, ordered by key.
pub proof fn lemma_sorted_indices_sorted(keys: Seq<Seq<u8>>, n: nat)
    ensures
        is_permutation(sorted_indices(keys, n), n as int),
        sorted_by(keys, sorted_indices(keys, n)),
    decreases n,
{
    lemma_sorted_indices_range(keys, n);
    if n > 0 {
        let prev = sorted_indices(keys, (n - 1) as nat);
        lemma_sorted_indices_sorted(keys, (n - 1) as nat);
        lemma_insert_sorted(keys, n - 1, prev);
        assert(!prev.contains(n - 1)) by {
            if prev.contains(n - 1) {
                let w = choose|w: int| 0 <= w < prev.len() && prev[w] == n - 1;
                assert(0 <= prev[w] < n - 1);
            }
        }
        lemma_insert_distinct(keys, n - 1, prev);
    }
}

/// With distinct keys, two permutations of `0..n` ordered by key are equal.
pub proof fn lemma_sorted_unique(keys: Seq<Seq<u8>>, n: int, a: Seq<int>, b: Seq<int>)
    requires
        keys.len() >= n,
        keys_distinct(keys, n),
        is_permutation(a, n),
        is_permutation(b, n),
        sorted_by(keys, a),
        sorted_by(keys, b),
    ensures
        a == b,
    decreases n,
{
    assert forall|i: int| 0 <= i < n implies a[i] == b[i] by {
        lemma_sorted_unique_at(keys, n, a, b, i);
    }
    assert(a =~= b);
}

/// A permutation of `0..n` holds every value below `n`.
proof fn lemma_pigeon(s: Seq<int>, n: int, v: int)
    requires
        is_permutation(s, n),
        0 <= v < n,
    ensures
        s.contains(v),
    decreases n,
{
    if !s.contains(v) {
        // Close the gap at `v` and drop the last element: a permutation of
        // `0..n-1` that misses the last element's image.
        let t = s.map_values(|x: int| if x > v { x - 1 } else { x });
        if n == 1 {
            assert(s[0] == 0);
            assert(s.contains(0));
        } else {
            let last = n - 1;
            let u = t[last];
            let t2 = t.drop_last();
            assert forall|i: int| 0 <= i < t2.len() implies 0 <= #[trigger] t2[i] < n - 1 by {
                assert(s[i] != v);
            }
            assert forall|i: int, j: int| 0 <= i < j < t2.len() implies #[trigger] t2[i] != #[trigger] t2[j] by {
                assert(s[i] != s[j]);
                assert(s[i] != v && s[j] != v);
            }
            assert(0 <= u < n - 1) by {
                assert(s[last] != v);
            }
            lemma_pigeon(t2, n - 1, u);
            let w = choose|w: int| 0 <= w < t2.len() && t2[w] == u;
            assert(s[w] != s[last]);
            assert(s[w] != v && s[last] != v);
        }
    }
}

proof fn lemma_sorted_unique_at(keys: Seq<Seq<u8>>, n: int, a: Seq<int>, b: Seq<int>, i: int)
    requires
        keys.len() >= n,
        keys_distinct(keys, n),
        is_permutation(a, n),
        is_permutation(b, n),
        sorted_by(keys, a),
        sorted_by(keys, b),
        0 <= i < n,
    ensures
        a[i] == b[i],
    decreases i,
{
    if a[i] != b[i] {
        assert forall|k: int| 0 <= k < i implies a[k] == b[k] by {
            lemma_sorted_unique_at(keys, n, a, b, k);
        }
        lemma_pigeon(b, n, a[i]);
        let j = choose|j: int| 0 <= j < b.len() && b[j] == a[i];
        lemma_pigeon(a, n, b[i]);
        let k = choose|k: int| 0 <= k < a.len() && a[k] == b[i];
        if j < i {
            assert(a[j] == b[j]);
            assert(a[j] == a[i]);
        }
        if k < i {
            assert(a[k] == b[k]);
            assert(b[k] == b[i]);
        }
        assert(j > i && k > i);
        // keys[a[i]] < keys[a[k]] == keys[b[i]] < keys[b[j]] == keys[a[i]]
        assert(!lex_lt(keys[a[k]], keys[a[i]]));
        assert(!lex_lt(keys[b[j]], keys[b[i]]));
        assert(keys[a[i]] != keys[b[i]]) by {
            if a[i] < b[i] {
                assert(keys[a[i]] != keys[b[i]]);
            } else {
                assert(keys[b[i]] != keys[a[i]]);
            }
        }
        lemma_lex_total(keys[a[i]], keys[b[i]]);
    }
}

} // verus!
