//! Similarity scoring: the normalized edit similarity between a token and an
//! entity, represented exactly as a rational number in [0,1] instead of a
//! lossy floating-point value. Identical strings score 1; maximally different
//! strings score 0.

use vstd::math::max;
use vstd::prelude::*;
use vstd::string::StrSliceExecFns;

use crate::catalog::{Group, GroupModel};
use crate::distance::{edit_distance, lemma_osa_le_max, lemma_osa_nonneg, lemma_osa_self, osa_dist};

verus! {

/// An exact similarity `num / den` with `0 <= num <= den` and `den > 0`.
#[derive(Debug, Clone, Copy, PartialEq, Eq, Structural)]
pub struct Score {
    pub num: usize,
    pub den: usize,
}

/// Spec-level model of a [`Score`]: an unbounded rational `num / den`.
pub ghost struct ScoreModel {
    pub num: int,
    pub den: int,
}

impl View for Score {
    type V = ScoreModel;

    open spec fn view(&self) -> ScoreModel {
        ScoreModel { num: self.num as int, den: self.den as int }
    }
}

/// A well-formed similarity: a rational in [0,1] with positive denominator.
pub open spec fn pair_valid(x: ScoreModel) -> bool {
    0 < x.den && 0 <= x.num && x.num <= x.den
}

/// `x < y` as rationals, decided by cross-multiplication.
pub open spec fn pair_lt(x: ScoreModel, y: ScoreModel) -> bool {
    x.num * y.den < y.num * x.den
}

/// The rational is exactly 1.
pub open spec fn pair_is_one(x: ScoreModel) -> bool {
    x.num == x.den
}

/// Numerator of the normalized edit similarity of `a` and `b`:
/// `max_len - distance`, or 1 when both are empty.
pub open spec fn sim_num(a: Seq<char>, b: Seq<char>) -> int {
    if a.len() == 0 && b.len() == 0 {
        1
    } else {
        max(a.len() as int, b.len() as int) - osa_dist(a, b)
    }
}

/// Denominator of the normalized edit similarity: the longer length, or 1
/// when both are empty.
pub open spec fn sim_den(a: Seq<char>, b: Seq<char>) -> int {
    if a.len() == 0 && b.len() == 0 {
        1
    } else {
        max(a.len() as int, b.len() as int)
    }
}

/// The normalized edit similarity of `a` and `b` as a rational.
pub open spec fn sim_pair(a: Seq<char>, b: Seq<char>) -> ScoreModel {
    ScoreModel { num: sim_num(a, b), den: sim_den(a, b) }
}

pub proof fn lemma_sim_pair_valid(a: Seq<char>, b: Seq<char>)
    ensures
        pair_valid(sim_pair(a, b)),
{
    lemma_osa_nonneg(a, b);
    lemma_osa_le_max(a, b);
}

/// A string is at similarity exactly 1 from itself.
pub proof fn lemma_sim_self(a: Seq<char>)
    ensures
        pair_is_one(sim_pair(a, a)),
{
    lemma_osa_self(a);
}

/// Folds the best score over the aliases, starting from `cur`; a later alias
/// replaces the current best only when strictly greater, so the first maximal
/// candidate is kept.
pub open spec fn fold_best(aliases: Seq<Seq<char>>, t: Seq<char>, cur: ScoreModel) -> ScoreModel
    decreases aliases.len(),
{
    if aliases.len() == 0 {
        cur
    } else {
        let s = sim_pair(aliases[0], t);
        let nxt = if pair_lt(cur, s) {
            s
        } else {
            cur
        };
        fold_best(aliases.drop_first(), t, nxt)
    }
}

/// The similarity of a token against an entity: the best of the primary name
/// and every alias. An entity without aliases scores by its primary name
/// alone.
pub open spec fn group_sim(g: GroupModel, t: Seq<char>) -> ScoreModel {
    fold_best(g.aliases, t, sim_pair(g.name, t))
}

pub proof fn lemma_fold_best_valid(aliases: Seq<Seq<char>>, t: Seq<char>, cur: ScoreModel)
    requires
        pair_valid(cur),
    ensures
        pair_valid(fold_best(aliases, t, cur)),
    decreases aliases.len(),
{
    if aliases.len() > 0 {
        let s = sim_pair(aliases[0], t);
        lemma_sim_pair_valid(aliases[0], t);
        let nxt = if pair_lt(cur, s) {
            s
        } else {
            cur
        };
        lemma_fold_best_valid(aliases.drop_first(), t, nxt);
    }
}

pub proof fn lemma_group_sim_valid(g: GroupModel, t: Seq<char>)
    ensures
        pair_valid(group_sim(g, t)),
{
    lemma_sim_pair_valid(g.name, t);
    lemma_fold_best_valid(g.aliases, t, sim_pair(g.name, t));
}

proof fn lemma_fold_best_keeps_one(aliases: Seq<Seq<char>>, t: Seq<char>, cur: ScoreModel)
    requires
        pair_valid(cur),
        pair_is_one(cur),
    ensures
        pair_is_one(fold_best(aliases, t, cur)),
    decreases aliases.len(),
{
    if aliases.len() > 0 {
        let s = sim_pair(aliases[0], t);
        lemma_sim_pair_valid(aliases[0], t);
        assert(!(cur.num * s.den < s.num * cur.den)) by (nonlinear_arith)
            requires
                cur.num == cur.den,
                0 < cur.den,
                0 <= s.num,
                s.num <= s.den,
        ;
        lemma_fold_best_keeps_one(aliases.drop_first(), t, cur);
    }
}

/// Law: an entity's similarity against its own primary name is exactly 1,
/// whatever its aliases are.
pub proof fn lemma_similarity_primary_name(g: GroupModel)
    ensures
        pair_is_one(group_sim(g, g.name)),
        pair_valid(group_sim(g, g.name)),
{
    lemma_sim_self(g.name);
    lemma_sim_pair_valid(g.name, g.name);
    lemma_fold_best_keeps_one(g.aliases, g.name, sim_pair(g.name, g.name));
    lemma_group_sim_valid(g, g.name);
}

/// Collects the characters of a string slice.
pub fn to_chars(s: &str) -> (r: Vec<char>)
    ensures
        r@ == s@,
{
    let n = s.unicode_len();
    let mut r: Vec<char> = Vec::new();
    for i in 0..n
        invariant
            n == s@.len(),
            r@.len() == i,
            forall|q: int| 0 <= q < i ==> r@[q] == s@[q],
    {
        r.push(s.get_char(i));
    }
    proof {
        assert(r@ =~= s@);
    }
    r
}

/// The normalized edit similarity of two strings as an exact rational.
pub fn similarity_score(a: &str, b: &str) -> (s: Score)
    ensures
        s@ == sim_pair(a@, b@),
{
    let av = to_chars(a);
    let bv = to_chars(b);
    let d = edit_distance(&av, &bv);
    let mx = if av.len() >= bv.len() {
        av.len()
    } else {
        bv.len()
    };
    if mx == 0 {
        Score { num: 1, den: 1 }
    } else {
        proof {
            lemma_osa_le_max(a@, b@);
            lemma_osa_nonneg(a@, b@);
        }
        Score { num: mx - d, den: mx }
    }
}

proof fn lemma_prod_fits(p: int, q: int)
    requires
        0 <= p <= u64::MAX as int,
        0 <= q <= u64::MAX as int,
    ensures
        p * q <= u128::MAX as int,
{
    vstd::arithmetic::mul::lemma_mul_upper_bound(p, u64::MAX as int, q, u64::MAX as int);
    assert((u64::MAX as int) * (u64::MAX as int) <= u128::MAX as int) by (nonlinear_arith);
}

/// `x < y` as rationals, computed without overflow via 128-bit products.
pub fn score_lt(x: &Score, y: &Score) -> (r: bool)
    ensures
        r == pair_lt(x@, y@),
{
    proof {
        lemma_prod_fits(x.num as int, y.den as int);
        lemma_prod_fits(y.num as int, x.den as int);
    }
    ((x.num as u128) * (y.den as u128)) < ((y.num as u128) * (x.den as u128))
}

impl Group {
    /// Best normalized edit similarity of `other` against this entity's
    /// primary name and every alias; ties keep the earliest candidate.
    pub fn similarity(&self, other: &str) -> (s: Score)
        ensures
            s@ == group_sim(self@, other@),
            pair_valid(s@),
    {
        let mut best = similarity_score(self.name.as_str(), other);
        proof {
            lemma_sim_pair_valid(self.name@, other@);
            assert(self@.aliases.skip(0) =~= self@.aliases);
        }
        for i in 0..self.aliases.len()
            invariant
                pair_valid(best@),
                group_sim(self@, other@) == fold_best(self@.aliases.skip(i as int), other@, best@),
        {
            let cand = similarity_score(self.aliases[i].as_str(), other);
            proof {
                assert(self@.aliases[i as int] == self.aliases@[i as int]@);
                assert(self@.aliases.skip(i as int)[0] == self@.aliases[i as int]);
                assert(self@.aliases.skip(i as int).drop_first() =~= self@.aliases.skip(i + 1));
                lemma_sim_pair_valid(self@.aliases[i as int], other@);
            }
            if score_lt(&best, &cand) {
                best = cand;
            }
        }
        proof {
            assert(self@.aliases.skip(self.aliases.len() as int) =~= Seq::<Seq<char>>::empty());
        }
        best
    }
}

} // verus!
