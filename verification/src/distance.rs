//! Edit distance between character sequences: the optimal-string-alignment
//! (restricted Damerau-Levenshtein) distance, i.e. the minimum number of
//! single-character insertions, deletions, substitutions and adjacent
//! transpositions turning one sequence into the other, with no substring
//! edited twice.

use vstd::math::{max, min};
use vstd::prelude::*;

verus! {

/// The restricted Damerau-Levenshtein distance between `a` and `b`.
pub open spec fn osa_dist(a: Seq<char>, b: Seq<char>) -> int
    decreases a.len() + b.len(),
{
    if a.len() == 0 {
        b.len() as int
    } else if b.len() == 0 {
        a.len() as int
    } else {
        let del = osa_dist(a.drop_last(), b) + 1;
        let ins = osa_dist(a, b.drop_last()) + 1;
        let sub = osa_dist(a.drop_last(), b.drop_last()) + if a.last() == b.last() {
            0int
        } else {
            1int
        };
        let best = min(min(del, ins), sub);
        if a.len() >= 2 && b.len() >= 2 && a.last() == b[b.len() - 2] && a[a.len() - 2]
            == b.last() {
            min(best, osa_dist(a.take(a.len() - 2), b.take(b.len() - 2)) + 1)
        } else {
            best
        }
    }
}

/// The distance is never negative.
pub proof fn lemma_osa_nonneg(a: Seq<char>, b: Seq<char>)
    ensures
        osa_dist(a, b) >= 0,
    decreases a.len() + b.len(),
{
    if a.len() != 0 && b.len() != 0 {
        lemma_osa_nonneg(a.drop_last(), b);
        lemma_osa_nonneg(a, b.drop_last());
        lemma_osa_nonneg(a.drop_last(), b.drop_last());
        if a.len() >= 2 && b.len() >= 2 && a.last() == b[b.len() - 2] && a[a.len() - 2]
            == b.last() {
            lemma_osa_nonneg(a.take(a.len() - 2), b.take(b.len() - 2));
        }
    }
}

/// The distance is at most the length of the longer sequence.
pub proof fn lemma_osa_le_max(a: Seq<char>, b: Seq<char>)
    ensures
        osa_dist(a, b) <= max(a.len() as int, b.len() as int),
    decreases a.len() + b.len(),
{
    if a.len() != 0 && b.len() != 0 {
        lemma_osa_le_max(a.drop_last(), b.drop_last());
        lemma_osa_le_max(a.drop_last(), b);
        lemma_osa_le_max(a, b.drop_last());
    }
}

/// A sequence is at distance zero from itself.
pub proof fn lemma_osa_self(a: Seq<char>)
    ensures
        osa_dist(a, a) == 0,
    decreases a.len(),
{
    if a.len() != 0 {
        lemma_osa_self(a.drop_last());
        lemma_osa_nonneg(a.drop_last(), a);
        lemma_osa_nonneg(a, a.drop_last());
        lemma_osa_nonneg(a, a);
        if a.len() >= 2 && a.last() == a[a.len() - 2] {
            lemma_osa_nonneg(a.take(a.len() - 2), a.take(a.len() - 2));
        }
    }
}

/// Computes [`osa_dist`] by dynamic programming over prefix pairs.
pub fn edit_distance(a: &Vec<char>, b: &Vec<char>) -> (d: usize)
    ensures
        d == osa_dist(a@, b@),
{
    let n = a.len();
    let m = b.len();
    let mut dp: Vec<Vec<usize>> = Vec::new();
    let mut row0: Vec<usize> = Vec::new();
    row0.push(0);
    proof {
        assert(a@.take(0) =~= Seq::<char>::empty());
        assert(b@.take(0) =~= Seq::<char>::empty());
    }
    for q in 0..m
        invariant
            row0@.len() == q + 1,
            forall|t: int| 0 <= t <= q ==> row0@[t] == osa_dist(a@.take(0), b@.take(t)),
    {
        row0.push(q + 1);
    }
    dp.push(row0);
    for ii in 0..n
        invariant
            dp@.len() == ii + 1,
            forall|p: int| 0 <= p <= ii ==> dp@[p]@.len() == m + 1,
            forall|p: int, q: int|
                0 <= p <= ii && 0 <= q <= m ==> dp@[p]@[q] == osa_dist(a@.take(p), b@.take(q)),
    {
        let i = ii + 1;
        let mut row: Vec<usize> = Vec::new();
        row.push(i);
        proof {
            assert(a@.take(i as int).len() == i);
        }
        for jj in 0..m
            invariant
                i == ii + 1,
                ii < n,
                dp@.len() == ii + 1,
                forall|p: int| 0 <= p <= ii ==> dp@[p]@.len() == m + 1,
                forall|p: int, q: int|
                    0 <= p <= ii && 0 <= q <= m ==> dp@[p]@[q] == osa_dist(a@.take(p), b@.take(q)),
                row@.len() == jj + 1,
                forall|q: int| 0 <= q <= jj ==> row@[q] == osa_dist(a@.take(i as int), b@.take(q)),
        {
            let j = jj + 1;
            let ghost pa = a@.take(i as int);
            let ghost pb = b@.take(j as int);
            proof {
                assert(pa.drop_last() =~= a@.take(ii as int));
                assert(pb.drop_last() =~= b@.take(jj as int));
                assert(pa.last() == a@[ii as int]);
                assert(pb.last() == b@[jj as int]);
                if i >= 2 && j >= 2 {
                    assert(pa.take(pa.len() - 2) =~= a@.take(i - 2));
                    assert(pb.take(pb.len() - 2) =~= b@.take(j - 2));
                    assert(pa[pa.len() - 2] == a@[i - 2]);
                    assert(pb[pb.len() - 2] == b@[j - 2]);
                }
                lemma_osa_le_max(a@.take(ii as int), b@.take(jj as int));
                lemma_osa_nonneg(a@.take(ii as int), b@.take(jj as int));
            }
            let cost: usize = if a[ii] == b[jj] {
                0
            } else {
                1
            };
            let mut v: usize = dp[ii][jj] + cost;
            if dp[ii][j] < v {
                v = dp[ii][j] + 1;
            }
            if row[jj] < v {
                v = row[jj] + 1;
            }
            if i >= 2 && j >= 2 && a[i - 1] == b[j - 2] && a[i - 2] == b[j - 1] {
                if dp[i - 2][j - 2] < v {
                    v = dp[i - 2][j - 2] + 1;
                }
            }
            proof {
                let del = osa_dist(pa.drop_last(), pb) + 1;
                let ins = osa_dist(pa, pb.drop_last()) + 1;
                let sub = osa_dist(pa.drop_last(), pb.drop_last()) + if pa.last() == pb.last() {
                    0int
                } else {
                    1int
                };
                let best = min(min(del, ins), sub);
                assert(pa.len() == i && pb.len() == j);
                assert(sub == dp@[ii as int]@[jj as int] + cost);
                assert(del == dp@[ii as int]@[j as int] + 1);
                assert(ins == row@[jj as int] + 1);
                if pa.len() >= 2 && pb.len() >= 2 && pa.last() == pb[pb.len() - 2] && pa[pa.len()
                    - 2] == pb.last() {
                    let tr = osa_dist(pa.take(pa.len() - 2), pb.take(pb.len() - 2)) + 1;
                    assert(tr == dp@[i - 2]@[j - 2] + 1);
                    assert(osa_dist(pa, pb) == min(best, tr));
                    assert(v == min(best, tr));
                } else {
                    assert(osa_dist(pa, pb) == best);
                    assert(v == best);
                }
                assert(v == osa_dist(pa, pb));
            }
            row.push(v);
        }
        dp.push(row);
    }
    proof {
        assert(a@.take(n as int) =~= a@);
        assert(b@.take(m as int) =~= b@);
    }
    dp[n][m]
}

} // verus!
