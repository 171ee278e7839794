//! The batch pipeline: extract every token of every submission, resolve each
//! one against the catalog, and accumulate the tally. One-shot: a shape
//! violation anywhere aborts the whole run with no partial tally.

use vstd::prelude::*;

use crate::catalog::{GroupModel, Groups, VoteError};
use crate::report::{spec_report, ReportModel};
use crate::resolver::{lemma_resolve_total, resolve, spec_resolve};
use crate::tally::{spec_record, sum_counts, tally_wf, RecModel, Tally};
use crate::text::{extract, spec_tokens};

verus! {

/// The record list after resolving and recording `toks` in order, starting
/// from an empty tally.
pub open spec fn spec_tally_of(groups: Seq<GroupModel>, toks: Seq<Seq<char>>) -> Seq<RecModel>
    decreases toks.len(),
{
    if toks.len() == 0 {
        Seq::<RecModel>::empty()
    } else {
        spec_record(
            spec_tally_of(groups, toks.drop_last()),
            spec_resolve(groups, toks.last()),
            toks.last(),
        )
    }
}

/// Parses a whole vote text against a non-empty catalog with submission
/// size `k` and tallies every token. Fails with `InputShapeError`, and only
/// with it, exactly when some block has other than `k` lines after the
/// two-line header skip; the failure leaves no partial tally.
pub fn parse_votes(groups: &Groups, votes: &str, k: usize) -> (r: Result<Tally, VoteError>)
    requires
        groups@.len() > 0,
    ensures
        (r is Ok) <==> (spec_tokens(votes@, k as int) is Some),
        r matches Ok(t) ==> (spec_tokens(votes@, k as int) matches Some(ts) && t@.recs
            == spec_tally_of(groups@, ts) && t@.group_count == groups@.len() && !t@.finalized
            && tally_wf(t@)),
        r matches Err(e) ==> e == VoteError::InputShapeError,
{
    let toks = match extract(votes, k) {
        Ok(ts) => ts,
        Err(e) => {
            return Err(e);
        },
    };
    let ghost tv = toks.deep_view();
    let mut t = Tally::new(groups.group.len());
    proof {
        assert(tv.take(0) =~= Seq::<Seq<char>>::empty());
    }
    for i in 0..toks.len()
        invariant
            t@.group_count == groups@.len(),
            !t@.finalized,
            tally_wf(t@),
            sum_counts(t@.recs) == i as int,
            t@.recs == spec_tally_of(groups@, tv.take(i as int)),
    {
        let ghost tokview = tv[i as int];
        proof {
            assert(toks@[i as int]@ == tokview);
            lemma_resolve_total(groups@, tokview);
        }
        // A non-empty catalog always resolves (closed world), so the `None`
        // arm is unreachable.
        let gid = match resolve(groups, toks[i].as_str()) {
            Some(g) => g,
            None => vstd::pervasive::unreached(),
        };
        let token = toks[i].clone();
        proof {
            assert(i < toks@.len());
            assert(sum_counts(t@.recs) < u64::MAX as int);
        }
        let res = t.record(gid, token);
        proof {
            assert(res is Ok);
            assert(tv.take(i + 1).drop_last() =~= tv.take(i as int));
            assert(tv.take(i + 1).last() == tokview);
            assert(t@.recs == spec_tally_of(groups@, tv.take(i + 1)));
        }
    }
    proof {
        assert(tv.take(toks@.len() as int) =~= tv);
    }
    Ok(t)
}

/// Law: the pipeline is deterministic. Every stage's contract pins its
/// result to a function of the catalog, the raw text and the submission
/// size alone, so two tallies that both meet `parse_votes`'s contract on the
/// same inputs hold the same records: same counts, same distinct-token
/// sequences, same order.
pub proof fn lemma_pipeline_deterministic(
    groups: Seq<GroupModel>,
    votes: Seq<char>,
    k: int,
    recs1: Seq<RecModel>,
    recs2: Seq<RecModel>,
)
    requires
        spec_tokens(votes, k) matches Some(ts) && recs1 == spec_tally_of(groups, ts) && recs2
            == spec_tally_of(groups, ts),
    ensures
        recs1 == recs2,
{
}

/// Law: finalization is deterministic too. Two finalized reports that both
/// meet `finalize`'s contract over equal record lists are equal: same row
/// order, same counts and token sequences, same summary integers.
pub proof fn lemma_report_deterministic(
    groups: Seq<GroupModel>,
    recs: Seq<RecModel>,
    k: int,
    rep1: ReportModel,
    rep2: ReportModel,
)
    requires
        rep1 == spec_report(groups, recs, k),
        rep2 == spec_report(groups, recs, k),
    ensures
        rep1 == rep2,
{
}

} // verus!
