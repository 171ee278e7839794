//! Finalization: the one-way transition out of accumulation, producing the
//! report rows sorted by count descending (ties keep first-matched order)
//! and the two summary integers.

use vstd::prelude::*;
use vstd::string::StringExecFns;

use crate::catalog::{GroupModel, Groups, VoteError};
use crate::tally::{sum_counts, tally_wf, RecModel, Tally};

verus! {

/// One report row: the entity's primary name, its aliases joined for
/// display, its final count and its distinct matched raw tokens.
#[derive(Debug)]
pub struct ReportRow {
    pub name: String,
    pub aliases_joined: String,
    pub count: u64,
    pub tokens: Vec<String>,
}

/// Spec-level model of a [`ReportRow`].
#[verifier::ext_equal]
pub ghost struct RowModel {
    pub name: Seq<char>,
    pub aliases_joined: Seq<char>,
    pub count: int,
    pub tokens: Seq<Seq<char>>,
}

impl View for ReportRow {
    type V = RowModel;

    open spec fn view(&self) -> RowModel {
        RowModel {
            name: self.name@,
            aliases_joined: self.aliases_joined@,
            count: self.count as int,
            tokens: self.tokens.deep_view(),
        }
    }
}

/// The finalized output.
#[derive(Debug)]
pub struct Report {
    /// Rows sorted by count descending; ties keep first-matched order.
    pub rows: Vec<ReportRow>,
    /// floor(total votes / k): how many full submissions the counts amount
    /// to.
    pub total_submissions_estimate: u64,
    /// Entities matched at least once minus the estimate: the heuristic
    /// "who has not voted yet" figure. It is sound only if no submission
    /// names one entity twice, which nothing verifies of the input.
    pub entities_not_yet_at_quota: i128,
}

/// Spec-level model of a [`Report`].
#[verifier::ext_equal]
pub ghost struct ReportModel {
    pub rows: Seq<RowModel>,
    pub total_submissions_estimate: int,
    pub entities_not_yet_at_quota: int,
}

impl View for Report {
    type V = ReportModel;

    open spec fn view(&self) -> ReportModel {
        ReportModel {
            rows: self.rows@.map_values(|r: ReportRow| r@),
            total_submissions_estimate: self.total_submissions_estimate as int,
            entities_not_yet_at_quota: self.entities_not_yet_at_quota as int,
        }
    }
}

/// Sequences joined with a comma-space separator for display.
pub open spec fn spec_join(parts: Seq<Seq<char>>) -> Seq<char> {
    if parts.len() == 0 {
        Seq::<char>::empty()
    } else {
        parts[0] + spec_join_tail(parts.drop_first())
    }
}

pub open spec fn spec_join_tail(parts: Seq<Seq<char>>) -> Seq<char>
    decreases parts.len(),
{
    if parts.len() == 0 {
        Seq::<char>::empty()
    } else {
        ", "@ + parts[0] + spec_join_tail(parts.drop_first())
    }
}

/// Joins strings with `", "`.
fn join_comma(parts: &Vec<String>) -> (r: String)
    ensures
        r@ == spec_join(parts.deep_view()),
{
    let mut acc = String::new();
    if parts.len() == 0 {
        return acc;
    }
    acc.append(parts[0].as_str());
    proof {
        assert(acc@ =~= parts.deep_view()[0]);
        assert(parts.deep_view().drop_first() =~= parts.deep_view().skip(1));
    }
    for i in 1..parts.len()
        invariant
            spec_join(parts.deep_view()) == acc@ + spec_join_tail(
                parts.deep_view().skip(i as int),
            ),
    {
        let ghost acc0 = acc@;
        let ghost pv = parts.deep_view()[i as int];
        acc.append(", ");
        acc.append(parts[i].as_str());
        proof {
            assert(parts@[i as int]@ == pv);
            assert(parts.deep_view().skip(i as int)[0] == pv);
            assert(parts.deep_view().skip(i as int).drop_first() =~= parts.deep_view().skip(i + 1));
            assert(acc@ == acc0 + ", "@ + pv);
            assert(acc0 + (", "@ + pv + spec_join_tail(parts.deep_view().skip(i + 1))) =~= (acc0
                + ", "@ + pv) + spec_join_tail(parts.deep_view().skip(i + 1)));
        }
    }
    proof {
        assert(parts.deep_view().skip(parts.deep_view().len() as int)
            =~= Seq::<Seq<char>>::empty());
        assert(acc@ + Seq::<char>::empty() =~= acc@);
    }
    acc
}

/// The display row of one tally record.
pub open spec fn row_of(groups: Seq<GroupModel>, r: RecModel) -> RowModel {
    RowModel {
        name: groups[r.gid].name,
        aliases_joined: spec_join(groups[r.gid].aliases),
        count: r.count,
        tokens: r.tokens,
    }
}

/// All rows of a tally, in first-matched order, before sorting.
pub open spec fn rows_of(groups: Seq<GroupModel>, recs: Seq<RecModel>) -> Seq<RowModel> {
    recs.map_values(|r: RecModel| row_of(groups, r))
}

/// Insertion into a count-descending list: the newcomer passes only rows
/// with strictly smaller counts, so it lands after every equal count
/// (stability).
pub open spec fn insert_desc(sorted: Seq<RowModel>, x: RowModel) -> Seq<RowModel>
    decreases sorted.len(),
{
    if sorted.len() == 0 {
        seq![x]
    } else if x.count > sorted[0].count {
        seq![x] + sorted
    } else {
        seq![sorted[0]] + insert_desc(sorted.drop_first(), x)
    }
}

/// Stable insertion sort by count descending, processing rows in order.
pub open spec fn spec_sort(rows: Seq<RowModel>) -> Seq<RowModel>
    decreases rows.len(),
{
    if rows.len() == 0 {
        Seq::<RowModel>::empty()
    } else {
        insert_desc(spec_sort(rows.drop_last()), rows.last())
    }
}

/// Counts are non-increasing along the sequence.
pub open spec fn sorted_desc(rows: Seq<RowModel>) -> bool {
    forall|i: int, j: int| 0 <= i < j < rows.len() ==> rows[i].count >= rows[j].count
}

proof fn lemma_insert_desc_sorted(sorted: Seq<RowModel>, x: RowModel)
    requires
        sorted_desc(sorted),
    ensures
        sorted_desc(insert_desc(sorted, x)),
        insert_desc(sorted, x).len() == sorted.len() + 1,
        forall|q: int|
            0 <= q < insert_desc(sorted, x).len() ==> #[trigger] insert_desc(sorted, x)[q].count
                <= x.count || (sorted.len() > 0 && insert_desc(sorted, x)[q].count
                <= sorted[0].count),
    decreases sorted.len(),
{
    if sorted.len() == 0 {
    } else if x.count > sorted[0].count {
    } else {
        assert(forall|i: int, j: int|
            0 <= i < j < sorted.drop_first().len() ==> sorted.drop_first()[i].count
                >= sorted.drop_first()[j].count);
        lemma_insert_desc_sorted(sorted.drop_first(), x);
        let r = insert_desc(sorted, x);
        let rr = insert_desc(sorted.drop_first(), x);
        assert(forall|q: int| 1 <= q < r.len() ==> r[q] == rr[q - 1]);
        assert(forall|q: int| 1 <= q < r.len() ==> r[0].count >= #[trigger] r[q].count);
    }
}

/// Law: the finalized rows are sorted by count descending.
pub proof fn lemma_sort_sorted(rows: Seq<RowModel>)
    ensures
        sorted_desc(spec_sort(rows)),
        spec_sort(rows).len() == rows.len(),
    decreases rows.len(),
{
    if rows.len() > 0 {
        lemma_sort_sorted(rows.drop_last());
        lemma_insert_desc_sorted(spec_sort(rows.drop_last()), rows.last());
    }
}

proof fn lemma_insert_desc_multiset(s: Seq<RowModel>, x: RowModel)
    ensures
        insert_desc(s, x).to_multiset() =~= s.to_multiset().insert(x),
    decreases s.len(),
{
    broadcast use vstd::seq_lib::group_to_multiset_ensures;
    broadcast use vstd::multiset::group_multiset_axioms;
    broadcast use vstd::multiset::lemma_multiset_empty_len;

    if s.len() == 0 {
        assert(seq![x] =~= Seq::<RowModel>::empty().push(x));
        assert(s.to_multiset().len() == 0);
        assert(insert_desc(s, x).to_multiset() =~= s.to_multiset().insert(x));
    } else if x.count > s[0].count {
        vstd::seq_lib::lemma_multiset_commutative(seq![x], s);
        assert(seq![x] =~= Seq::<RowModel>::empty().push(x));
        assert(Seq::<RowModel>::empty().to_multiset().len() == 0);
        assert(insert_desc(s, x).to_multiset() =~= s.to_multiset().insert(x));
    } else {
        lemma_insert_desc_multiset(s.drop_first(), x);
        vstd::seq_lib::lemma_multiset_commutative(seq![s[0]], insert_desc(s.drop_first(), x));
        vstd::seq_lib::lemma_multiset_commutative(seq![s[0]], s.drop_first());
        assert(seq![s[0]] + s.drop_first() =~= s);
        assert(seq![s[0]] =~= Seq::<RowModel>::empty().push(s[0]));
        assert(Seq::<RowModel>::empty().to_multiset().len() == 0);
        assert(insert_desc(s, x).to_multiset() =~= s.to_multiset().insert(x));
    }
}

/// Law: sorting reorders only — the sorted rows are a permutation of the
/// rows handed to it.
pub proof fn lemma_sort_permutes(rows: Seq<RowModel>)
    ensures
        spec_sort(rows).to_multiset() =~= rows.to_multiset(),
    decreases rows.len(),
{
    broadcast use vstd::seq_lib::group_to_multiset_ensures;

    if rows.len() > 0 {
        lemma_sort_permutes(rows.drop_last());
        lemma_insert_desc_multiset(spec_sort(rows.drop_last()), rows.last());
        assert(rows.drop_last().push(rows.last()) =~= rows);
    }
}

proof fn lemma_insert_desc_at(s: Seq<RowModel>, x: RowModel, idx: int)
    requires
        0 <= idx <= s.len(),
        forall|q: int| 0 <= q < idx ==> s[q].count >= x.count,
        idx < s.len() ==> x.count > s[idx].count,
    ensures
        insert_desc(s, x) == s.subrange(0, idx) + seq![x] + s.skip(idx),
    decreases s.len(),
{
    if idx == 0 {
        if s.len() == 0 {
            assert(insert_desc(s, x) =~= s.subrange(0, 0) + seq![x] + s.skip(0));
        } else {
            assert(insert_desc(s, x) =~= s.subrange(0, 0) + seq![x] + s.skip(0));
        }
    } else {
        assert(s[0].count >= x.count);
        assert(forall|q: int| 0 <= q < idx - 1 ==> s.drop_first()[q].count >= x.count);
        assert(idx - 1 < s.drop_first().len() ==> x.count > s.drop_first()[idx - 1].count);
        lemma_insert_desc_at(s.drop_first(), x, idx - 1);
        assert(insert_desc(s, x) =~= s.subrange(0, idx) + seq![x] + s.skip(idx));
    }
}

fn insert_row(rows: &mut Vec<ReportRow>, x: ReportRow)
    ensures
        final(rows)@.map_values(|r: ReportRow| r@) == insert_desc(
            old(rows)@.map_values(|r: ReportRow| r@),
            x@,
        ),
{
    let ghost s = rows@.map_values(|r: ReportRow| r@);
    let mut idx: usize = 0;
    while idx < rows.len() && x.count <= rows[idx].count
        invariant
            idx <= rows@.len(),
            rows@ == old(rows)@,
            forall|q: int| 0 <= q < idx ==> s[q].count >= x@.count,
        decreases rows@.len() - idx,
    {
        idx += 1;
    }
    proof {
        lemma_insert_desc_at(s, x@, idx as int);
    }
    rows.insert(idx, x);
    proof {
        assert(rows@.map_values(|r: ReportRow| r@) =~= s.subrange(0, idx as int) + seq![x@]
            + s.skip(idx as int));
    }
}

/// Sorts rows by count descending; equal counts keep their relative order.
fn sort_rows(rows: Vec<ReportRow>) -> (r: Vec<ReportRow>)
    ensures
        r@.map_values(|x: ReportRow| x@) == spec_sort(rows@.map_values(|x: ReportRow| x@)),
{
    let ghost orig = rows@.map_values(|x: ReportRow| x@);
    let mut src = rows;
    let mut out: Vec<ReportRow> = Vec::new();
    proof {
        assert(orig.take(0) =~= Seq::<RowModel>::empty());
        assert(orig.skip(0) =~= orig);
        assert(out@.map_values(|x: ReportRow| x@) =~= Seq::<RowModel>::empty());
    }
    while src.len() > 0
        invariant
            src@.len() <= orig.len(),
            out@.map_values(|x: ReportRow| x@) == spec_sort(
                orig.take(orig.len() - src@.len()),
            ),
            src@.map_values(|x: ReportRow| x@) == orig.skip(orig.len() - src@.len()),
        decreases src@.len(),
    {
        let ghost done = orig.len() - src@.len();
        let ghost src0 = src@;
        let x = src.remove(0);
        proof {
            assert(x@ == orig.skip(done)[0]);
            assert(x@ == orig[done]);
            assert(src@ =~= src0.drop_first());
            assert(src@.map_values(|y: ReportRow| y@) =~= src0.map_values(
                |y: ReportRow| y@,
            ).drop_first());
            assert(orig.skip(done).drop_first() =~= orig.skip(done + 1));
        }
        insert_row(&mut out, x);
        proof {
            assert(orig.take(done + 1).drop_last() =~= orig.take(done));
            assert(orig.take(done + 1).last() == orig[done]);
            assert(out@.map_values(|y: ReportRow| y@) == insert_desc(
                spec_sort(orig.take(done)),
                orig[done],
            ));
            assert(out@.map_values(|y: ReportRow| y@) == spec_sort(orig.take(done + 1)));
        }
    }
    proof {
        assert(orig.take(orig.len() as int) =~= orig);
    }
    out
}

fn clone_string_vec(v: &Vec<String>) -> (r: Vec<String>)
    ensures
        r@ == v@,
{
    let mut r: Vec<String> = Vec::new();
    for i in 0..v.len()
        invariant
            r@.len() == i,
            forall|q: int| 0 <= q < i ==> r@[q] == v@[q],
    {
        r.push(v[i].clone());
    }
    proof {
        assert(r@ =~= v@);
    }
    r
}

proof fn lemma_sum_take_step(recs: Seq<RecModel>, i: int)
    requires
        0 <= i < recs.len(),
    ensures
        sum_counts(recs.take(i + 1)) == sum_counts(recs.take(i)) + recs[i].count,
{
    assert(recs.take(i + 1).drop_last() =~= recs.take(i));
    assert(recs.take(i + 1).last() == recs[i]);
}

proof fn lemma_sum_take_le(recs: Seq<RecModel>, i: int)
    requires
        0 <= i <= recs.len(),
        forall|q: int| 0 <= q < recs.len() ==> #[trigger] recs[q].count >= 0,
    ensures
        sum_counts(recs.take(i)) <= sum_counts(recs),
    decreases recs.len() - i,
{
    if i == recs.len() {
        assert(recs.take(i) =~= recs);
    } else {
        lemma_sum_take_step(recs, i);
        lemma_sum_take_le(recs, i + 1);
    }
}

/// The whole finalized report of a tally: rows sorted by count descending,
/// `floor(total / k)` as the submission estimate, and the number of matched
/// entities minus that estimate.
pub open spec fn spec_report(groups: Seq<GroupModel>, recs: Seq<RecModel>, k: int) -> ReportModel
    recommends
        k >= 1,
{
    let est = sum_counts(recs) / k;
    ReportModel {
        rows: spec_sort(rows_of(groups, recs)),
        total_submissions_estimate: est,
        entities_not_yet_at_quota: recs.len() - est,
    }
}

impl Tally {
    /// The one-way transition from accumulating to finalized: produces the
    /// sorted report and the two summary integers. Once finalized, another
    /// `finalize` (like a `record`) fails with [`VoteError::StateError`] and
    /// changes nothing.
    pub fn finalize(&mut self, groups: &Groups, k: usize) -> (r: Result<Report, VoteError>)
        requires
            tally_wf(old(self)@),
            old(self)@.group_count == groups@.len(),
            k >= 1,
        ensures
            tally_wf(final(self)@),
            final(self)@.recs == old(self)@.recs,
            final(self)@.group_count == old(self)@.group_count,
            old(self)@.finalized ==> r == Err::<Report, VoteError>(VoteError::StateError)
                && final(self)@ == old(self)@,
            !old(self)@.finalized ==> final(self)@.finalized && (r matches Ok(rep) && rep@
                == spec_report(groups@, old(self)@.recs, k as int)),
    {
        if self.finalized {
            return Err(VoteError::StateError);
        }
        self.finalized = true;
        let ghost recs = self@.recs;
        let mut rows: Vec<ReportRow> = Vec::new();
        proof {
            assert(recs.take(0) =~= Seq::<RecModel>::empty());
            assert(rows@.map_values(|x: ReportRow| x@) =~= rows_of(groups@, recs.take(0)));
        }
        for i in 0..self.recs.len()
            invariant
                recs == self@.recs,
                tally_wf(self@),
                self@.group_count == groups@.len(),
                rows@.map_values(|x: ReportRow| x@) == rows_of(groups@, recs.take(i as int)),
        {
            let ghost rows0 = rows@.map_values(|x: ReportRow| x@);
            proof {
                assert(recs[i as int].gid < groups@.len());
            }
            let gid = self.recs[i].gid;
            let g = &groups.group[gid];
            proof {
                assert(g@ == groups@[gid as int]);
            }
            let row = ReportRow {
                name: g.name.clone(),
                aliases_joined: join_comma(&g.aliases),
                count: self.recs[i].count,
                tokens: clone_string_vec(&self.recs[i].tokens),
            };
            rows.push(row);
            proof {
                assert(row@ =~~= row_of(groups@, recs[i as int]));
                assert(recs.take(i + 1) =~= recs.take(i as int).push(recs[i as int]));
                assert(rows@.map_values(|x: ReportRow| x@) =~~= rows0.push(
                    row_of(groups@, recs[i as int]),
                ));
                assert(rows@.map_values(|x: ReportRow| x@) =~~= rows_of(
                    groups@,
                    recs.take(i + 1),
                ));
            }
        }
        proof {
            assert(recs.take(recs.len() as int) =~= recs);
        }
        let sorted = sort_rows(rows);
        let mut total: u128 = 0;
        proof {
            assert(recs.take(0) =~= Seq::<RecModel>::empty());
        }
        for i in 0..self.recs.len()
            invariant
                recs == self@.recs,
                tally_wf(self@),
                total == sum_counts(recs.take(i as int)),
                total <= u64::MAX as u128,
        {
            proof {
                lemma_sum_take_step(recs, i as int);
                lemma_sum_take_le(recs, i + 1);
            }
            total = total + self.recs[i].count as u128;
        }
        proof {
            assert(recs.take(recs.len() as int) =~= recs);
        }
        let est_wide = total / (k as u128);
        proof {
            assert(est_wide <= total) by (nonlinear_arith)
                requires
                    est_wide == total / (k as u128),
                    k >= 1,
            ;
        }
        let est = est_wide as u64;
        let not_yet: i128 = (self.recs.len() as i128) - (est as i128);
        Ok(Report { rows: sorted, total_submissions_estimate: est, entities_not_yet_at_quota: not_yet })
    }
}

} // verus!
