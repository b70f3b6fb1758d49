//! Facts about embedded paths and the canonical form of a byte stream.

use vstd::prelude::*;
use crate::pattern::{
    canonical_path, fits, hash_covered, in_hash_field, is_path_at, rewritten, rewritten_upto,
};

verus! {

/// Two embedded paths of one stream never share a byte.
pub proof fn lemma_paths_disjoint(s: Seq<u8>, p: int, q: int)
    requires
        is_path_at(s, p),
        is_path_at(s, q),
        p <= q < p + 44,
    ensures
        p == q,
{
    // the second path opens with `/`, which the first admits at offsets 0, 4 and 10 only
    assert(fits(0, s[q]));
    assert(fits(q - p, s[q]));
    if q - p == 4 {
        assert(fits(1, s[q + 1]));
        assert(fits(5, s[q + 1]));
    } else if q - p == 10 {
        assert(fits(4, s[q + 4]));
        assert(fits(14, s[q + 4]));
    }
}

/// Rewriting keeps the length.
pub proof fn lemma_rewritten_len(s: Seq<u8>)
    ensures
        rewritten(s).len() == s.len(),
{
}

/// A rewritten embedded path is the canonical replacement.
pub proof fn lemma_path_becomes_canonical(s: Seq<u8>, limit: int, p: int)
    requires
        is_path_at(s, p),
        p + 44 <= limit,
    ensures
        rewritten_upto(s, limit).subrange(p, p + 44) == canonical_path(),
{
    let r = rewritten_upto(s, limit);
    assert forall|j: int| 0 <= j < 44 implies r[p + j] == canonical_path()[j] by {
        let i = p + j;
        assert(fits(i - p, s[i]));
        if 11 <= j < 43 {
            assert(in_hash_field(s, limit, p, i));
        } else if hash_covered(s, limit, i) {
            let q = choose|q: int| in_hash_field(s, limit, q, i);
            if q <= p {
                lemma_paths_disjoint(s, q, p);
            } else {
                lemma_paths_disjoint(s, p, q);
            }
        }
    }
    assert(r.subrange(p, p + 44) =~= canonical_path());
}

/// Rewriting neither makes nor unmakes an embedded path: a rewritten stream
/// has its embedded paths exactly where the stream had them.
pub proof fn lemma_rewriting_keeps_paths(s: Seq<u8>, limit: int, p: int)
    ensures
        is_path_at(rewritten_upto(s, limit), p) <==> is_path_at(s, p),
{
    let r = rewritten_upto(s, limit);
    if is_path_at(s, p) {
        assert forall|i: int| p <= i < p + 44 implies fits(i - p, #[trigger] r[i]) by {
            assert(fits(i - p, s[i]));
            if hash_covered(s, limit, i) {
                let q = choose|q: int| in_hash_field(s, limit, q, i);
                if q <= p {
                    lemma_paths_disjoint(s, q, p);
                } else {
                    lemma_paths_disjoint(s, p, q);
                }
            }
        }
    }
    if is_path_at(r, p) && !is_path_at(s, p) {
        // some byte of the path was changed, so an embedded path of `s` meets it
        let i = choose|i: int| p <= i < p + 44 && !fits(i - p, #[trigger] s[i]);
        assert(fits(i - p, r[i]));
        assert(hash_covered(s, limit, i));
        let q = choose|q: int| in_hash_field(s, limit, q, i);
        assert forall|j: int| q <= j < q + 44 implies fits(j - q, #[trigger] r[j]) by {
            assert(fits(j - q, s[j]));
            if hash_covered(s, limit, j) {
                let q2 = choose|q2: int| in_hash_field(s, limit, q2, j);
                if q2 <= q {
                    lemma_paths_disjoint(s, q2, q);
                } else {
                    lemma_paths_disjoint(s, q, q2);
                }
            }
        }
        assert(is_path_at(r, q));
        if q <= p {
            lemma_paths_disjoint(r, q, p);
        } else {
            lemma_paths_disjoint(r, p, q);
        }
    }
}

/// Rewriting twice is rewriting once.
pub proof fn lemma_rewritten_idempotent(s: Seq<u8>)
    ensures
        rewritten(rewritten(s)) == rewritten(s),
{
    let r = rewritten(s);
    let n = s.len() as int;
    assert forall|i: int| 0 <= i < n implies #[trigger] rewritten(r)[i] == r[i] by {
        if hash_covered(r, n, i) {
            let q = choose|q: int| in_hash_field(r, n, q, i);
            lemma_rewriting_keeps_paths(s, n, q);
            assert(in_hash_field(s, n, q, i));
        }
    }
    assert(rewritten(r) =~= r);
}

/// Where no embedded path of `x + y` lies across the seam, rewriting the
/// whole is rewriting the parts.
pub proof fn lemma_rewritten_concat(x: Seq<u8>, y: Seq<u8>)
    requires
        forall|p: int| #[trigger] is_path_at(x + y, p) ==> p + 44 <= x.len() || x.len() <= p,
    ensures
        rewritten(x + y) == rewritten(x) + rewritten(y),
{
    let z = x + y;
    let n = x.len() as int;
    assert forall|i: int| 0 <= i < z.len() implies #[trigger] rewritten(z)[i] == (rewritten(x)
        + rewritten(y))[i] by {
        if hash_covered(z, z.len() as int, i) {
            let p = choose|p: int| in_hash_field(z, z.len() as int, p, i);
            if p + 44 <= n {
                assert forall|j: int| p <= j < p + 44 implies fits(j - p, #[trigger] x[j]) by {
                    assert(x[j] == z[j]);
                }
                assert(in_hash_field(x, n, p, i));
            } else {
                let q = p - n;
                assert forall|j: int| q <= j < q + 44 implies fits(j - q, #[trigger] y[j]) by {
                    assert(y[j] == z[j + n]);
                    assert(fits((j + n) - p, z[j + n]));
                }
                assert(in_hash_field(y, y.len() as int, q, i - n));
            }
        } else if i < n {
            if hash_covered(x, n, i) {
                let p = choose|p: int| in_hash_field(x, n, p, i);
                assert forall|j: int| p <= j < p + 44 implies fits(j - p, #[trigger] z[j]) by {
                    assert(x[j] == z[j]);
                    assert(fits(j - p, x[j]));
                }
                assert(in_hash_field(z, z.len() as int, p, i));
            }
        } else {
            let k = i - n;
            if hash_covered(y, y.len() as int, k) {
                let q = choose|q: int| in_hash_field(y, y.len() as int, q, k);
                let p = q + n;
                assert forall|j: int| p <= j < p + 44 implies fits(j - p, #[trigger] z[j]) by {
                    assert(y[j - n] == z[j]);
                    assert(fits((j - n) - q, y[j - n]));
                }
                assert(in_hash_field(z, z.len() as int, p, i));
            }
        }
    }
    assert(rewritten(z) =~= rewritten(x) + rewritten(y));
}

/// An embedded path of a prefix of `s` is an embedded path of `s` that ends
/// within the prefix.
pub proof fn lemma_path_in_take(s: Seq<u8>, n: int, p: int)
    requires
        0 <= n <= s.len(),
    ensures
        is_path_at(s.take(n), p) <==> is_path_at(s, p) && p + 44 <= n,
{
    let t = s.take(n);
    if is_path_at(t, p) {
        assert forall|i: int| p <= i < p + 44 implies fits(i - p, #[trigger] s[i]) by {
            assert(fits(i - p, t[i]));
        }
    }
    if is_path_at(s, p) && p + 44 <= n {
        assert forall|i: int| p <= i < p + 44 implies fits(i - p, #[trigger] t[i]) by {
            assert(fits(i - p, s[i]));
        }
    }
}

/// An embedded path of a stretch of `s` is an embedded path of `s` that lies
/// within the stretch.
pub proof fn lemma_path_in_subrange(s: Seq<u8>, a: int, b: int, p: int)
    requires
        0 <= a <= b <= s.len(),
    ensures
        is_path_at(s.subrange(a, b), p) <==> 0 <= p && is_path_at(s, a + p) && a + p + 44 <= b,
{
    let t = s.subrange(a, b);
    if is_path_at(t, p) {
        assert forall|i: int| a + p <= i < a + p + 44 implies fits(i - (a + p), #[trigger] s[i]) by {
            assert(fits((i - a) - p, t[i - a]));
        }
    }
    if 0 <= p && is_path_at(s, a + p) && a + p + 44 <= b {
        assert forall|i: int| p <= i < p + 44 implies fits(i - p, #[trigger] t[i]) by {
            assert(fits((i + a) - (a + p), s[i + a]));
        }
    }
}

/// With no room for an embedded path below the limit, nothing is rewritten.
pub proof fn lemma_upto_nothing(s: Seq<u8>, limit: int)
    requires
        limit < 44,
    ensures
        rewritten_upto(s, limit) == s,
{
    assert(rewritten_upto(s, limit) =~= s);
}

/// A byte at or after the last offset below the limit has not been touched.
pub proof fn lemma_upto_tail_raw(s: Seq<u8>, limit: int, i: int)
    requires
        limit - 1 <= i < s.len(),
        0 <= i,
    ensures
        rewritten_upto(s, limit)[i] == s[i],
{
}

/// Raising the limit by one byte rewrites the embedded path that ends there,
/// if there is one, and nothing else.
pub proof fn lemma_upto_step(s: Seq<u8>, n: int)
    requires
        0 <= n < s.len(),
    ensures
        is_path_at(s, n - 43) ==> rewritten_upto(s, n + 1) == rewritten_upto(s, n).subrange(
            0,
            n - 43,
        ) + canonical_path() + rewritten_upto(s, n).subrange(n + 1, s.len() as int),
        !is_path_at(s, n - 43) ==> rewritten_upto(s, n + 1) == rewritten_upto(s, n),
{
    let p = n - 43;
    let m = n + 1;
    let before = rewritten_upto(s, n);
    let after = rewritten_upto(s, m);
    assert forall|i: int| 0 <= i < s.len() && !(is_path_at(s, p) && p <= i < p + 44) implies after[i]
        == before[i] by {
        if hash_covered(s, m, i) {
            let q = choose|q: int| in_hash_field(s, m, q, i);
            if q + 44 == m {
                assert(q == p);
            }
            assert(in_hash_field(s, n, q, i));
        }
        if hash_covered(s, n, i) {
            let q = choose|q: int| in_hash_field(s, n, q, i);
            assert(in_hash_field(s, m, q, i));
        }
    }
    if is_path_at(s, p) {
        lemma_path_becomes_canonical(s, m, p);
        let patched = before.subrange(0, p) + canonical_path() + before.subrange(
            n + 1,
            s.len() as int,
        );
        assert forall|i: int| 0 <= i < s.len() implies after[i] == patched[i] by {
            if p <= i < p + 44 {
                assert(after.subrange(p, p + 44)[i - p] == after[i]);
            }
        }
        assert(after =~= patched);
    } else {
        assert(after =~= before);
    }
}

/// Bytes that arrive later do not change what was rewritten up to a limit
/// within the bytes that were there.
pub proof fn lemma_upto_extend(s: Seq<u8>, more: Seq<u8>, limit: int)
    requires
        limit <= s.len(),
    ensures
        rewritten_upto(s + more, limit) == rewritten_upto(s, limit) + more,
{
    let z = s + more;
    assert forall|i: int| 0 <= i < z.len() implies rewritten_upto(z, limit)[i] == (rewritten_upto(
        s,
        limit,
    ) + more)[i] by {
        if hash_covered(z, limit, i) {
            let p = choose|p: int| in_hash_field(z, limit, p, i);
            assert(z.take(s.len() as int) =~= s);
            lemma_path_in_take(z, s.len() as int, p);
            assert(in_hash_field(s, limit, p, i));
        }
        if i < s.len() && hash_covered(s, limit, i) {
            let p = choose|p: int| in_hash_field(s, limit, p, i);
            assert(z.take(s.len() as int) =~= s);
            lemma_path_in_take(z, s.len() as int, p);
            assert(in_hash_field(z, limit, p, i));
        }
    }
    assert(rewritten_upto(z, limit) =~= rewritten_upto(s, limit) + more);
}

/// Rewriting up to a limit is rewriting the part before the limit and
/// leaving the rest.
pub proof fn lemma_upto_split(s: Seq<u8>, limit: int)
    requires
        0 <= limit <= s.len(),
    ensures
        rewritten_upto(s, limit) == rewritten(s.take(limit)) + s.skip(limit),
{
    assert(s =~= s.take(limit) + s.skip(limit));
    lemma_upto_extend(s.take(limit), s.skip(limit), limit);
}

/// Rewriting a window of a stream. Take a stream in which the embedded paths
/// that end at or before `done` are rewritten, and rewrite its stretch from
/// `from` to `to` on its own. If every embedded path that ends after `done`
/// and at or before `to` begins in the stretch, which holds when the stretch
/// begins at most 43 bytes before `done`, the result is that stretch of the
/// stream with the embedded paths that end at or before `to` rewritten.
pub proof fn lemma_window(s: Seq<u8>, done: int, from: int, to: int)
    requires
        0 <= from <= to <= s.len(),
        done <= to,
        from == 0 || from + 43 <= done,
    ensures
        rewritten(rewritten_upto(s, done).subrange(from, to)) == rewritten_upto(s, to).subrange(
            from,
            to,
        ),
{
    let z = rewritten_upto(s, done);
    let w = z.subrange(from, to);
    let n = to - from;
    let target = rewritten_upto(s, to).subrange(from, to);
    assert forall|j: int| 0 <= j < n implies #[trigger] rewritten(w)[j] == target[j] by {
        let i = from + j;
        if hash_covered(w, n, j) {
            let q = choose|q: int| in_hash_field(w, n, q, j);
            lemma_path_in_subrange(z, from, to, q);
            lemma_rewriting_keeps_paths(s, done, from + q);
            assert(in_hash_field(s, to, from + q, i));
        } else if hash_covered(s, done, i) {
            let p = choose|p: int| in_hash_field(s, done, p, i);
            assert(in_hash_field(s, to, p, i));
        } else if hash_covered(s, to, i) {
            let p = choose|p: int| in_hash_field(s, to, p, i);
            assert(!in_hash_field(s, done, p, i));
            assert(p >= from);
            lemma_rewriting_keeps_paths(s, done, p);
            let q = p - from;
            lemma_path_in_subrange(z, from, to, q);
            assert(in_hash_field(w, n, q, j));
        }
    }
    assert(rewritten(w) =~= target);
}

/// The first `n` bytes are settled once the limit is 32 bytes past them: an
/// embedded path whose hash field reaches below `n` ends before `n + 32`.
pub proof fn lemma_upto_prefix(s: Seq<u8>, lo: int, hi: int, n: int)
    requires
        lo <= hi,
        0 <= n <= s.len(),
        n == 0 || n + 32 <= lo,
    ensures
        rewritten_upto(s, lo).take(n) == rewritten_upto(s, hi).take(n),
{
    assert forall|i: int| 0 <= i < n implies rewritten_upto(s, lo)[i] == rewritten_upto(s, hi)[i] by {
        if hash_covered(s, lo, i) {
            let p = choose|p: int| in_hash_field(s, lo, p, i);
            assert(in_hash_field(s, hi, p, i));
        }
        if hash_covered(s, hi, i) {
            let p = choose|p: int| in_hash_field(s, hi, p, i);
            assert(in_hash_field(s, lo, p, i));
        }
    }
    assert(rewritten_upto(s, lo).take(n) =~= rewritten_upto(s, hi).take(n));
}

/// What was rewritten is not taken back: the canonical form of a stream is
/// settled up to 32 bytes before its end, whatever bytes arrive later.
pub proof fn lemma_rewritten_prefix_settled(s: Seq<u8>, more: Seq<u8>, n: int)
    requires
        0 <= n,
        n + 32 <= s.len(),
    ensures
        rewritten(s + more).take(n) == rewritten(s).take(n),
{
    let z = s + more;
    lemma_upto_prefix(z, s.len() as int, z.len() as int, n);
    lemma_upto_extend(s, more, s.len() as int);
    assert(rewritten_upto(z, s.len() as int).take(n) =~= rewritten(s).take(n));
}

} // verus!
