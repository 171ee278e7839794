//! The aggregator: per-entity vote counts and distinct matched tokens,
//! accumulated across all submissions. Records are created lazily on the
//! first match of an entity and kept in first-matched order; the tally is a
//! one-way state machine from accumulating to finalized.

use vstd::prelude::*;

use crate::catalog::VoteError;

verus! {

/// The bookkeeping for one entity: how many votes matched it and which
/// distinct raw tokens did, in first-seen order.
#[derive(Debug)]
pub struct TallyRec {
    pub gid: usize,
    pub count: u64,
    pub tokens: Vec<String>,
}

/// Spec-level model of a [`TallyRec`].
#[verifier::ext_equal]
pub ghost struct RecModel {
    pub gid: int,
    pub count: int,
    pub tokens: Seq<Seq<char>>,
}

impl View for TallyRec {
    type V = RecModel;

    open spec fn view(&self) -> RecModel {
        RecModel { gid: self.gid as int, count: self.count as int, tokens: self.tokens.deep_view() }
    }
}

/// The aggregation state: one record per matched entity, in first-matched
/// order, plus the one-way finalized flag.
#[derive(Debug)]
pub struct Tally {
    pub group_count: usize,
    pub recs: Vec<TallyRec>,
    pub finalized: bool,
}

/// Spec-level model of a [`Tally`].
#[verifier::ext_equal]
pub ghost struct TallyModel {
    pub group_count: int,
    pub recs: Seq<RecModel>,
    pub finalized: bool,
}

impl View for Tally {
    type V = TallyModel;

    open spec fn view(&self) -> TallyModel {
        TallyModel {
            group_count: self.group_count as int,
            recs: self.recs@.map_values(|r: TallyRec| r@),
            finalized: self.finalized,
        }
    }
}

/// The index of the first record for `gid`, or -1 if none exists yet.
pub open spec fn find_gid(recs: Seq<RecModel>, gid: int) -> int
    decreases recs.len(),
{
    if recs.len() == 0 {
        -1
    } else if recs[0].gid == gid {
        0
    } else if find_gid(recs.drop_first(), gid) < 0 {
        -1
    } else {
        find_gid(recs.drop_first(), gid) + 1
    }
}

pub proof fn lemma_find_gid(recs: Seq<RecModel>, gid: int)
    ensures
        find_gid(recs, gid) < 0 ==> forall|i: int| 0 <= i < recs.len() ==> recs[i].gid != gid,
        find_gid(recs, gid) >= 0 ==> find_gid(recs, gid) < recs.len() && recs[find_gid(
            recs,
            gid,
        )].gid == gid,
        find_gid(recs, gid) >= 0 ==> forall|i: int|
            0 <= i < find_gid(recs, gid) ==> recs[i].gid != gid,
    decreases recs.len(),
{
    if recs.len() > 0 && recs[0].gid != gid {
        lemma_find_gid(recs.drop_first(), gid);
        assert(forall|i: int| 1 <= i < recs.len() ==> recs[i] == recs.drop_first()[i - 1]);
    }
}

/// One recording step: create the record on first match, else add one to the
/// count and insert the token into the distinct set if it is new.
pub open spec fn spec_record(recs: Seq<RecModel>, gid: int, tok: Seq<char>) -> Seq<RecModel> {
    let i = find_gid(recs, gid);
    if i < 0 {
        recs.push(RecModel { gid, count: 1, tokens: seq![tok] })
    } else {
        let r = recs[i];
        let toks = if r.tokens.contains(tok) {
            r.tokens
        } else {
            r.tokens.push(tok)
        };
        recs.update(i, RecModel { gid, count: r.count + 1, tokens: toks })
    }
}

/// The count tallied so far for `gid` (0 before its first match).
pub open spec fn count_of(recs: Seq<RecModel>, gid: int) -> int {
    if find_gid(recs, gid) < 0 {
        0
    } else {
        recs[find_gid(recs, gid)].count
    }
}

/// The distinct tokens matched to `gid` so far, in first-seen order.
pub open spec fn tokens_of(recs: Seq<RecModel>, gid: int) -> Seq<Seq<char>> {
    if find_gid(recs, gid) < 0 {
        Seq::<Seq<char>>::empty()
    } else {
        recs[find_gid(recs, gid)].tokens
    }
}

/// No two equal token sequences.
pub open spec fn no_dup(toks: Seq<Seq<char>>) -> bool {
    forall|i: int, j: int| 0 <= i < j < toks.len() ==> toks[i] != toks[j]
}

/// The total number of recorded votes.
pub open spec fn sum_counts(recs: Seq<RecModel>) -> int
    decreases recs.len(),
{
    if recs.len() == 0 {
        0
    } else {
        sum_counts(recs.drop_last()) + recs.last().count
    }
}

/// Well-formedness of the record list for a catalog of `n` entities: every
/// record names a real entity, entities appear at most once, every record
/// was created by a match (count >= 1), distinct tokens are distinct and no
/// more numerous than the count, and the total fits the count type.
pub open spec fn recs_wf(recs: Seq<RecModel>, n: int) -> bool {
    &&& forall|i: int|
        0 <= i < recs.len() ==> (0 <= #[trigger] recs[i].gid < n && 1 <= recs[i].count && no_dup(
            recs[i].tokens,
        ) && recs[i].tokens.len() <= recs[i].count)
    &&& forall|i: int, j: int| 0 <= i < j < recs.len() ==> recs[i].gid != recs[j].gid
    &&& sum_counts(recs) <= u64::MAX as int
}

/// Well-formedness of a whole tally.
pub open spec fn tally_wf(t: TallyModel) -> bool {
    recs_wf(t.recs, t.group_count)
}

pub proof fn lemma_sum_nonneg(recs: Seq<RecModel>)
    requires
        forall|i: int| 0 <= i < recs.len() ==> #[trigger] recs[i].count >= 0,
    ensures
        sum_counts(recs) >= 0,
    decreases recs.len(),
{
    if recs.len() > 0 {
        lemma_sum_nonneg(recs.drop_last());
    }
}

pub proof fn lemma_count_le_sum(recs: Seq<RecModel>, i: int)
    requires
        0 <= i < recs.len(),
        forall|q: int| 0 <= q < recs.len() ==> #[trigger] recs[q].count >= 0,
    ensures
        recs[i].count <= sum_counts(recs),
    decreases recs.len(),
{
    if i == recs.len() - 1 {
        lemma_sum_nonneg(recs.drop_last());
    } else {
        lemma_count_le_sum(recs.drop_last(), i);
    }
}

pub proof fn lemma_sum_update(recs: Seq<RecModel>, i: int, r: RecModel)
    requires
        0 <= i < recs.len(),
    ensures
        sum_counts(recs.update(i, r)) == sum_counts(recs) - recs[i].count + r.count,
    decreases recs.len(),
{
    if i == recs.len() - 1 {
        assert(recs.update(i, r).drop_last() =~= recs.drop_last());
    } else {
        assert(recs.update(i, r).drop_last() =~= recs.drop_last().update(i, r));
        assert(recs.update(i, r).last() == recs.last());
        lemma_sum_update(recs.drop_last(), i, r);
    }
}

pub proof fn lemma_sum_push(recs: Seq<RecModel>, r: RecModel)
    ensures
        sum_counts(recs.push(r)) == sum_counts(recs) + r.count,
{
    assert(recs.push(r).drop_last() =~= recs);
}

proof fn lemma_find_gid_update(recs: Seq<RecModel>, i: int, r: RecModel, g: int)
    requires
        0 <= i < recs.len(),
        r.gid == recs[i].gid,
    ensures
        find_gid(recs.update(i, r), g) == find_gid(recs, g),
    decreases recs.len(),
{
    if i == 0 {
        if recs[0].gid != g {
            assert(recs.update(0, r).drop_first() =~= recs.drop_first());
        }
    } else {
        assert(recs.update(i, r).drop_first() =~= recs.drop_first().update(i - 1, r));
        lemma_find_gid_update(recs.drop_first(), i - 1, r, g);
    }
}

proof fn lemma_find_gid_push(recs: Seq<RecModel>, r: RecModel, g: int)
    ensures
        find_gid(recs, g) >= 0 ==> find_gid(recs.push(r), g) == find_gid(recs, g),
        find_gid(recs, g) < 0 && r.gid == g ==> find_gid(recs.push(r), g) == recs.len(),
        find_gid(recs, g) < 0 && r.gid != g ==> find_gid(recs.push(r), g) < 0,
    decreases recs.len(),
{
    if recs.len() == 0 {
        assert(recs.push(r)[0] == r);
        assert(recs.push(r).drop_first() =~= Seq::<RecModel>::empty());
        assert(find_gid(Seq::<RecModel>::empty(), g) == -1);
        assert(r.gid != g ==> find_gid(recs.push(r), g) == -1);
    } else {
        assert(recs.push(r)[0] == recs[0]);
        if recs[0].gid != g {
            assert(recs.push(r).drop_first() =~= recs.drop_first().push(r));
            lemma_find_gid_push(recs.drop_first(), r, g);
        }
    }
}

proof fn lemma_record_other(recs: Seq<RecModel>, gid: int, tok: Seq<char>, g: int)
    requires
        g != gid,
    ensures
        count_of(spec_record(recs, gid, tok), g) == count_of(recs, g),
        tokens_of(spec_record(recs, gid, tok), g) == tokens_of(recs, g),
{
    lemma_find_gid(recs, gid);
    lemma_find_gid(recs, g);
    let i = find_gid(recs, gid);
    if i < 0 {
        let r = RecModel { gid, count: 1, tokens: seq![tok] };
        lemma_find_gid_push(recs, r, g);
        if find_gid(recs, g) >= 0 {
            assert(recs.push(r)[find_gid(recs, g)] == recs[find_gid(recs, g)]);
        }
    } else {
        let r0 = recs[i];
        let toks = if r0.tokens.contains(tok) {
            r0.tokens
        } else {
            r0.tokens.push(tok)
        };
        let r = RecModel { gid, count: r0.count + 1, tokens: toks };
        lemma_find_gid_update(recs, i, r, g);
        if find_gid(recs, g) >= 0 {
            assert(recs.update(i, r)[find_gid(recs, g)] == recs[find_gid(recs, g)]);
        }
    }
}

/// Law: one `record` step adds exactly one to the matched entity's count,
/// whether or not the token was seen before; it never shrinks the distinct
/// token set, keeps its size at or below the count, and leaves every other
/// entity's count and tokens unchanged.
pub proof fn lemma_record_properties(recs: Seq<RecModel>, n: int, gid: int, tok: Seq<char>)
    requires
        recs_wf(recs, n),
        0 <= gid < n,
    ensures
        count_of(spec_record(recs, gid, tok), gid) == count_of(recs, gid) + 1,
        tokens_of(spec_record(recs, gid, tok), gid).len() >= tokens_of(recs, gid).len(),
        tokens_of(spec_record(recs, gid, tok), gid).len() <= count_of(recs, gid) + 1,
        forall|g: int|
            g != gid ==> #[trigger] count_of(spec_record(recs, gid, tok), g) == count_of(recs, g),
        forall|g: int|
            g != gid ==> #[trigger] tokens_of(spec_record(recs, gid, tok), g) == tokens_of(recs, g),
{
    lemma_find_gid(recs, gid);
    let i = find_gid(recs, gid);
    assert forall|g: int| g != gid implies #[trigger] count_of(spec_record(recs, gid, tok), g)
        == count_of(recs, g) by {
        lemma_record_other(recs, gid, tok, g);
    }
    assert forall|g: int| g != gid implies #[trigger] tokens_of(spec_record(recs, gid, tok), g)
        == tokens_of(recs, g) by {
        lemma_record_other(recs, gid, tok, g);
    }
    if i < 0 {
        let r = RecModel { gid, count: 1, tokens: seq![tok] };
        lemma_find_gid_push(recs, r, gid);
    } else {
        let r0 = recs[i];
        let toks = if r0.tokens.contains(tok) {
            r0.tokens
        } else {
            r0.tokens.push(tok)
        };
        let r = RecModel { gid, count: r0.count + 1, tokens: toks };
        lemma_find_gid_update(recs, i, r, gid);
    }
}

/// One recording step preserves well-formedness and raises the total by one.
pub proof fn lemma_record_wf(recs: Seq<RecModel>, n: int, gid: int, tok: Seq<char>)
    requires
        recs_wf(recs, n),
        0 <= gid < n,
        sum_counts(recs) < u64::MAX as int,
    ensures
        recs_wf(spec_record(recs, gid, tok), n),
        sum_counts(spec_record(recs, gid, tok)) == sum_counts(recs) + 1,
{
    lemma_find_gid(recs, gid);
    let i = find_gid(recs, gid);
    if i < 0 {
        let r = RecModel { gid, count: 1, tokens: seq![tok] };
        lemma_sum_push(recs, r);
    } else {
        let r0 = recs[i];
        let toks = if r0.tokens.contains(tok) {
            r0.tokens
        } else {
            r0.tokens.push(tok)
        };
        let r = RecModel { gid, count: r0.count + 1, tokens: toks };
        lemma_sum_update(recs, i, r);
        if !r0.tokens.contains(tok) {
            assert(forall|q: int| 0 <= q < r0.tokens.len() ==> r0.tokens[q] != tok);
            assert(no_dup(toks));
        }
    }
}

fn contains_string(v: &Vec<String>, t: &String) -> (r: bool)
    ensures
        r == v.deep_view().contains(t@),
{
    for i in 0..v.len()
        invariant
            forall|q: int| 0 <= q < i ==> v.deep_view()[q] != t@,
    {
        if v[i] == *t {
            proof {
                assert(v.deep_view()[i as int] == t@);
            }
            return true;
        }
    }
    proof {
        assert(!v.deep_view().contains(t@));
    }
    false
}

impl Tally {
    /// A fresh, empty, accumulating tally over a catalog of `group_count`
    /// entities.
    pub fn new(group_count: usize) -> (t: Tally)
        ensures
            t@.group_count == group_count,
            t@.recs == Seq::<RecModel>::empty(),
            !t@.finalized,
            tally_wf(t@),
    {
        let t = Tally { group_count, recs: Vec::new(), finalized: false };
        proof {
            assert(t@.recs =~= Seq::<RecModel>::empty());
        }
        t
    }

    fn find_rec(&self, gid: usize) -> (r: Option<usize>)
        ensures
            (r is Some) <==> find_gid(self@.recs, gid as int) >= 0,
            r matches Some(i) ==> i as int == find_gid(self@.recs, gid as int) && i
                < self.recs@.len(),
    {
        for i in 0..self.recs.len()
            invariant
                forall|q: int| 0 <= q < i ==> self@.recs[q].gid != gid,
        {
            if self.recs[i].gid == gid {
                proof {
                    lemma_find_gid(self@.recs, gid as int);
                    assert(self@.recs[i as int].gid == gid);
                }
                return Some(i);
            }
        }
        proof {
            lemma_find_gid(self@.recs, gid as int);
        }
        None
    }

    /// Records one resolved vote: count + 1 for the entity, and the raw
    /// token into its distinct set if new. After `finalize` this fails with
    /// [`VoteError::StateError`] and changes nothing. The total recorded so
    /// far must leave room for one more vote in the count type.
    pub fn record(&mut self, gid: usize, token: String) -> (r: Result<(), VoteError>)
        requires
            tally_wf(old(self)@),
            gid < old(self).group_count,
            sum_counts(old(self)@.recs) < u64::MAX as int,
        ensures
            final(self)@.group_count == old(self)@.group_count,
            final(self)@.finalized == old(self)@.finalized,
            tally_wf(final(self)@),
            old(self)@.finalized ==> r == Err::<(), VoteError>(VoteError::StateError)
                && final(self)@ == old(self)@,
            !old(self)@.finalized ==> r == Ok::<(), VoteError>(()) && final(self)@.recs
                == spec_record(old(self)@.recs, gid as int, token@) && sum_counts(final(self)@.recs)
                == sum_counts(old(self)@.recs) + 1,
    {
        if self.finalized {
            return Err(VoteError::StateError);
        }
        let ghost recs0 = self@.recs;
        proof {
            lemma_record_wf(recs0, self@.group_count, gid as int, token@);
        }
        let found = self.find_rec(gid);
        match found {
            Some(i) => {
                proof {
                    lemma_find_gid(recs0, gid as int);
                    lemma_count_le_sum(recs0, i as int);
                }
                let mut rec = self.recs.remove(i);
                rec.count = rec.count + 1;
                let has = contains_string(&rec.tokens, &token);
                let ghost tokens0 = rec.tokens.deep_view();
                if has == false {
                    rec.tokens.push(token);
                    proof {
                        assert(rec.tokens.deep_view() =~= tokens0.push(token@));
                    }
                }
                self.recs.insert(i, rec);
                proof {
                    assert(self@.recs =~~= spec_record(recs0, gid as int, token@));
                }
            },
            None => {
                let mut tokens: Vec<String> = Vec::new();
                tokens.push(token);
                let rec = TallyRec { gid, count: 1, tokens };
                proof {
                    assert(rec@.tokens =~= seq![token@]);
                }
                self.recs.push(rec);
                proof {
                    assert(self@.recs =~~= spec_record(recs0, gid as int, token@));
                }
            },
        }
        Ok(())
    }
}

} // verus!
