//! The greedy match finder shared by the encoders: given the input and a
//! current position, find the longest prior match within a bounded window,
//! with a bounded match length. On equal lengths the nearest candidate
//! wins; that tie-break is what makes re-encoding reference data byte-exact.

use vstd::prelude::*;

verus! {

/// The number of leading positions on which `s[i..]` and `s[j..]` agree,
/// capped at `limit` and at the end of `s`.
pub open spec fn count_eq(s: Seq<u8>, i: int, j: int, limit: int) -> int
    decreases limit,
{
    if limit <= 0 || i < 0 || j < 0 || i >= s.len() || j >= s.len() || s[i] != s[j] {
        0
    } else {
        1 + count_eq(s, i + 1, j + 1, limit - 1)
    }
}

/// The greedy choice over candidates `j` in `[lo, hi]`, nearest first: the
/// pair `(j, k)` with `k` maximal and, among maxima, `j` largest. `(0, 0)`
/// when no candidate matches at all.
pub open spec fn best_from(s: Seq<u8>, lo: int, hi: int, i: int, limit: int) -> (int, int)
    decreases hi - lo + 1,
{
    if hi < lo {
        (0, 0)
    } else {
        let k = count_eq(s, i, hi, limit);
        let rest = best_from(s, lo, hi - 1, i, limit);
        if k > 0 && k >= rest.1 {
            (hi, k)
        } else {
            rest
        }
    }
}

pub proof fn lemma_count_eq_bounds(s: Seq<u8>, i: int, j: int, limit: int)
    ensures
        0 <= count_eq(s, i, j, limit),
        count_eq(s, i, j, limit) <= limit || limit < 0,
        0 <= i <= s.len() ==> i + count_eq(s, i, j, limit) <= s.len(),
        0 <= j <= s.len() ==> j + count_eq(s, i, j, limit) <= s.len(),
    decreases limit,
{
    if !(limit <= 0 || i < 0 || j < 0 || i >= s.len() || j >= s.len() || s[i] != s[j]) {
        lemma_count_eq_bounds(s, i + 1, j + 1, limit - 1);
    }
}

/// Every position the count covers really is equal, and the count is
/// maximal: it stops only at the cap or at a mismatch.
pub proof fn lemma_count_eq_exact(s: Seq<u8>, i: int, j: int, limit: int)
    requires
        0 <= j,
        0 <= i,
    ensures
        forall|t: int| 0 <= t < count_eq(s, i, j, limit) ==> s[i + t] == #[trigger] s[j + t],
        count_eq(s, i, j, limit) < limit ==> {
            let k = count_eq(s, i, j, limit);
            i + k >= s.len() || j + k >= s.len() || s[i + k] != s[j + k]
        },
    decreases limit,
{
    if !(limit <= 0 || i >= s.len() || j >= s.len() || s[i] != s[j]) {
        lemma_count_eq_exact(s, i + 1, j + 1, limit - 1);
        let k = count_eq(s, i, j, limit);
        assert forall|t: int| 0 <= t < k implies s[i + t] == #[trigger] s[j + t] by {
            if t > 0 {
                assert(s[i + 1 + (t - 1)] == s[j + 1 + (t - 1)]);
            }
        }
    }
}

/// The greedy choice really is the greedy choice: no candidate matches
/// longer, the winner's length is its own match length, and every nearer
/// candidate matches strictly shorter.
pub proof fn lemma_best_from_greedy(s: Seq<u8>, lo: int, hi: int, i: int, limit: int)
    ensures
        forall|j: int| lo <= j <= hi ==> #[trigger] count_eq(s, i, j, limit) <= best_from(
            s,
            lo,
            hi,
            i,
            limit,
        ).1,
        best_from(s, lo, hi, i, limit).1 > 0 ==> {
            let (bj, bk) = best_from(s, lo, hi, i, limit);
            lo <= bj <= hi && count_eq(s, i, bj, limit) == bk && (forall|j: int|
                bj < j <= hi ==> #[trigger] count_eq(s, i, j, limit) < bk)
        },
        best_from(s, lo, hi, i, limit).1 >= 0,
    decreases hi - lo + 1,
{
    if hi >= lo {
        lemma_best_from_greedy(s, lo, hi - 1, i, limit);
        lemma_count_eq_bounds(s, i, hi, limit);
    }
}

/// The number of leading positions on which `s[i..]` and `s[j..]` agree,
/// capped at `limit` and at the end of `s`.
pub fn count_equal(s: &[u8], i: usize, j: usize, limit: usize) -> (r: usize)
    requires
        i <= s@.len(),
        j <= s@.len(),
    ensures
        r == count_eq(s@, i as int, j as int, limit as int),
        r <= limit,
{
    proof {
        lemma_count_eq_bounds(s@, i as int, j as int, limit as int);
    }
    let mut k: usize = 0;
    while k < limit && s.len() - i > k && s.len() - j > k && s[i + k] == s[j + k]
        invariant
            k <= limit,
            i + k <= s@.len(),
            j + k <= s@.len(),
            count_eq(s@, i as int, j as int, limit as int) == k + count_eq(
                s@,
                i + k,
                j + k,
                limit - k,
            ),
        decreases limit - k,
    {
        k = k + 1;
    }
    k
}

/// The greedy match finder. Candidates are the positions `j` in
/// `[i - window, i)` (clamped at zero), nearest first; each is scored by
/// its match length against `s[i..]` capped at `limit`; the longest wins
/// and ties go to the nearest. Returns `(0, 0)` when nothing matches.
#[verifier::loop_isolation(false)]
pub fn find_match(s: &[u8], i: usize, window: usize, limit: usize) -> (r: (usize, usize))
    requires
        i <= s@.len(),
    ensures
        (r.0 as int, r.1 as int) == best_from(
            s@,
            if i >= window {
                i - window
            } else {
                0
            },
            i - 1,
            i as int,
            limit as int,
        ),
        r.1 <= limit,
        r.1 > 0 ==> r.0 < i,
{
    let lo: usize = if i >= window {
        i - window
    } else {
        0
    };
    let ghost lo_i = lo as int;
    let mut best_j: usize = 0;
    let mut best_k: usize = 0;
    let mut j: usize = i;
    while j > lo
        invariant
            lo <= j <= i,
            best_k <= limit,
            best_k > 0 ==> j <= best_j && best_j < i,
            (best_j as int, best_k as int) == best_from(s@, j as int, i - 1, i as int, limit as int),
        decreases j,
    {
        let k = count_equal(s, i, j - 1, limit);
        proof {
            lemma_best_from_expand(s@, j - 1, i - 1, i as int, limit as int);
        }
        if k > best_k {
            best_j = j - 1;
            best_k = k;
        }
        j = j - 1;
    }
    (best_j, best_k)
}

/// Scanning one candidate further down only changes the result when that
/// candidate strictly beats everything nearer.
proof fn lemma_best_from_expand(s: Seq<u8>, lo: int, hi: int, i: int, limit: int)
    requires
        lo <= hi,
    ensures
        best_from(s, lo, hi, i, limit) == {
            let nearer = best_from(s, lo + 1, hi, i, limit);
            let k = count_eq(s, i, lo, limit);
            if k > nearer.1 {
                (lo, k)
            } else {
                nearer
            }
        },
    decreases hi - lo + 1,
{
    lemma_count_eq_bounds(s, i, lo, limit);
    lemma_count_eq_bounds(s, i, hi, limit);
    if lo < hi {
        lemma_best_from_expand(s, lo, hi - 1, i, limit);
        lemma_best_from_greedy(s, lo + 1, hi - 1, i, limit);
        lemma_best_from_greedy(s, lo, hi - 1, i, limit);
    } else {
        assert(best_from(s, lo, hi - 1, i, limit) == (0int, 0int));
        assert(best_from(s, lo + 1, hi, i, limit) == (0int, 0int));
    }
}

} // verus!
