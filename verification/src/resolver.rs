//! The resolver: picks the best-matching entity for a token. Every entity is
//! scored; the strictly greatest score wins and ties go to the first maximal
//! entity in catalog order. The reference policy has no similarity floor
//! (closed world: every token is a typo of some real entity), but the floor
//! is exposed as an explicit parameter so it stays tunable.

use vstd::prelude::*;

use crate::catalog::{GroupModel, Groups};
use crate::similarity::{
    group_sim, lemma_group_sim_valid, pair_lt, pair_valid, score_lt, Score, ScoreModel,
};

verus! {

/// Scans entities from index `i` keeping the best seen so far (`bi`, `bs`);
/// a later entity wins only with a strictly greater score, so the first
/// maximal entity is kept.
pub open spec fn resolve_from(
    groups: Seq<GroupModel>,
    t: Seq<char>,
    i: int,
    bi: int,
    bs: ScoreModel,
) -> (int, ScoreModel)
    decreases groups.len() - i,
{
    if i < 0 || i >= groups.len() {
        (bi, bs)
    } else {
        let s = group_sim(groups[i], t);
        if pair_lt(bs, s) {
            resolve_from(groups, t, i + 1, i, s)
        } else {
            resolve_from(groups, t, i + 1, bi, bs)
        }
    }
}

/// The index of the first entity of maximal similarity to `t`.
pub open spec fn spec_resolve(groups: Seq<GroupModel>, t: Seq<char>) -> int
    recommends
        groups.len() > 0,
{
    resolve_from(groups, t, 1, 0, group_sim(groups[0], t)).0
}

/// The similarity achieved by the resolved entity.
pub open spec fn spec_resolve_score(groups: Seq<GroupModel>, t: Seq<char>) -> ScoreModel
    recommends
        groups.len() > 0,
{
    resolve_from(groups, t, 1, 0, group_sim(groups[0], t)).1
}

/// Resolution with an explicit similarity floor: `None` on an empty catalog
/// or when even the best entity scores strictly below the floor.
pub open spec fn spec_resolve_floor(
    groups: Seq<GroupModel>,
    t: Seq<char>,
    f: ScoreModel,
) -> Option<int> {
    if groups.len() == 0 {
        None
    } else if pair_lt(spec_resolve_score(groups, t), f) {
        None
    } else {
        Some(spec_resolve(groups, t))
    }
}

proof fn lemma_resolve_from_range(
    groups: Seq<GroupModel>,
    t: Seq<char>,
    i: int,
    bi: int,
    bs: ScoreModel,
)
    requires
        0 <= bi < groups.len(),
    ensures
        0 <= resolve_from(groups, t, i, bi, bs).0 < groups.len(),
    decreases groups.len() - i,
{
    if 0 <= i && i < groups.len() {
        let s = group_sim(groups[i], t);
        if pair_lt(bs, s) {
            lemma_resolve_from_range(groups, t, i + 1, i, s);
        } else {
            lemma_resolve_from_range(groups, t, i + 1, bi, bs);
        }
    }
}

proof fn lemma_resolve_from_valid(
    groups: Seq<GroupModel>,
    t: Seq<char>,
    i: int,
    bi: int,
    bs: ScoreModel,
)
    requires
        pair_valid(bs),
    ensures
        pair_valid(resolve_from(groups, t, i, bi, bs).1),
    decreases groups.len() - i,
{
    if 0 <= i && i < groups.len() {
        let s = group_sim(groups[i], t);
        lemma_group_sim_valid(groups[i], t);
        if pair_lt(bs, s) {
            lemma_resolve_from_valid(groups, t, i + 1, i, s);
        } else {
            lemma_resolve_from_valid(groups, t, i + 1, bi, bs);
        }
    }
}

/// Resolves `token` to the first entity of maximal similarity, unless the
/// catalog is empty or every entity scores strictly below `floor`.
pub fn resolve_with_floor(groups: &Groups, token: &str, floor: &Score) -> (r: Option<usize>)
    ensures
        (r is Some) <==> (spec_resolve_floor(groups@, token@, floor@) is Some),
        r matches Some(i) ==> Some(i as int) == spec_resolve_floor(groups@, token@, floor@) && i
            < groups.group@.len(),
{
    if groups.group.len() == 0 {
        return None;
    }
    let mut bi: usize = 0;
    let mut bs = groups.group[0].similarity(token);
    proof {
        assert(groups.group@[0]@ == groups@[0]);
    }
    for i in 1..groups.group.len()
        invariant
            bi < i <= groups.group@.len(),
            pair_valid(bs@),
            resolve_from(groups@, token@, 1, 0, group_sim(groups@[0], token@)) == resolve_from(
                groups@,
                token@,
                i as int,
                bi as int,
                bs@,
            ),
    {
        proof {
            assert(groups.group@[i as int]@ == groups@[i as int]);
        }
        let s = groups.group[i].similarity(token);
        if score_lt(&bs, &s) {
            bi = i;
            bs = s;
        }
    }
    if score_lt(&bs, floor) {
        None
    } else {
        Some(bi)
    }
}

/// Resolves `token` against a non-empty catalog: the closed-world policy,
/// with a zero floor, never answers "no match".
pub fn resolve(groups: &Groups, token: &str) -> (r: Option<usize>)
    ensures
        (r is Some) <==> groups@.len() > 0,
        r matches Some(i) ==> i as int == spec_resolve(groups@, token@) && i < groups.group@.len(),
{
    let floor = Score { num: 0, den: 1 };
    proof {
        if groups@.len() > 0 {
            lemma_group_sim_valid(groups@[0], token@);
            lemma_resolve_from_valid(groups@, token@, 1, 0, group_sim(groups@[0], token@));
            let best = spec_resolve_score(groups@, token@);
            assert(best.num * 1 == best.num);
            assert(0int * best.den == 0);
            assert(!pair_lt(best, floor@));
        }
    }
    resolve_with_floor(groups, token, &floor)
}

/// Law: for a non-empty catalog, resolution with the reference (zero-floor)
/// policy always yields some entity, and it lies inside the catalog.
pub proof fn lemma_resolve_total(groups: Seq<GroupModel>, t: Seq<char>)
    requires
        groups.len() > 0,
    ensures
        0 <= spec_resolve(groups, t) < groups.len(),
{
    lemma_resolve_from_range(groups, t, 1, 0, group_sim(groups[0], t));
}

} // verus!
