//! The token extractor: splits raw vote text into blocks on the fixed
//! two-character marker `"> "`, trims each block, skips its two header lines,
//! and normalizes each remaining line into a token. A block with the wrong
//! number of lines is fatal for the whole run.

use vstd::prelude::*;
use vstd::string::{StrSliceExecFns, StringExecFns};

use crate::catalog::VoteError;

verus! {

/// True for the ASCII letters, the characters that may begin a name.
pub open spec fn is_alpha(c: char) -> bool {
    (97 <= c as u32 && c as u32 <= 122) || (65 <= c as u32 && c as u32 <= 90)
}

pub fn is_alpha_char(c: char) -> (r: bool)
    ensures
        r == is_alpha(c),
{
    let u = c as u32;
    (97 <= u && u <= 122) || (65 <= u && u <= 90)
}

/// True for the ASCII whitespace characters trimmed from block edges.
pub open spec fn is_ws(c: char) -> bool {
    c == ' ' || c == '\t' || c == '\n' || c == '\r' || c == '\u{b}' || c == '\u{c}'
}

pub fn is_ws_char(c: char) -> (r: bool)
    ensures
        r == is_ws(c),
{
    c == ' ' || c == '\t' || c == '\n' || c == '\r' || c == '\u{b}' || c == '\u{c}'
}

/// The sequence without its leading whitespace run.
pub open spec fn trim_start_spec(s: Seq<char>) -> Seq<char>
    decreases s.len(),
{
    if s.len() > 0 && is_ws(s[0]) {
        trim_start_spec(s.drop_first())
    } else {
        s
    }
}

/// The sequence without its trailing whitespace run.
pub open spec fn trim_end_spec(s: Seq<char>) -> Seq<char>
    decreases s.len(),
{
    if s.len() > 0 && is_ws(s.last()) {
        trim_end_spec(s.drop_last())
    } else {
        s
    }
}

/// The sequence without leading and trailing whitespace.
pub open spec fn spec_trim(s: Seq<char>) -> Seq<char> {
    trim_end_spec(trim_start_spec(s))
}

/// Strips whitespace from both ends of a string.
pub fn trim_str(s: &str) -> (r: String)
    ensures
        r@ == spec_trim(s@),
{
    let n = s.unicode_len();
    let mut lo: usize = 0;
    proof {
        assert(s@.skip(0) =~= s@);
    }
    while lo < n && is_ws_char(s.get_char(lo))
        invariant
            lo <= n,
            n == s@.len(),
            trim_start_spec(s@) == trim_start_spec(s@.skip(lo as int)),
        decreases n - lo,
    {
        proof {
            assert(s@.skip(lo as int)[0] == s@[lo as int]);
            assert(s@.skip(lo as int).drop_first() =~= s@.skip(lo + 1));
        }
        lo += 1;
    }
    proof {
        if lo < n {
            assert(s@.skip(lo as int)[0] == s@[lo as int]);
        } else {
            assert(s@.skip(lo as int) =~= Seq::<char>::empty());
        }
        assert(trim_start_spec(s@) == s@.skip(lo as int));
        assert(s@.skip(lo as int) =~= s@.subrange(lo as int, n as int));
    }
    let mut hi: usize = n;
    while hi > lo && is_ws_char(s.get_char(hi - 1))
        invariant
            lo <= hi <= n,
            n == s@.len(),
            trim_end_spec(s@.subrange(lo as int, n as int)) == trim_end_spec(
                s@.subrange(lo as int, hi as int),
            ),
        decreases hi,
    {
        proof {
            assert(s@.subrange(lo as int, hi as int).last() == s@[hi - 1]);
            assert(s@.subrange(lo as int, hi as int).drop_last() =~= s@.subrange(
                lo as int,
                hi - 1,
            ));
        }
        hi -= 1;
    }
    proof {
        if hi > lo {
            assert(s@.subrange(lo as int, hi as int).last() == s@[hi - 1]);
        }
        assert(trim_end_spec(s@.subrange(lo as int, hi as int)) == s@.subrange(
            lo as int,
            hi as int,
        ));
    }
    s.substring_char(lo, hi).to_owned()
}

/// Prefixes `p` onto the first piece of a non-empty split result.
pub open spec fn prepend_first(p: Seq<char>, r: Seq<Seq<char>>) -> Seq<Seq<char>>
    recommends
        r.len() >= 1,
{
    r.update(0, p + r[0])
}

/// Splits on the fixed two-character block marker `"> "`, leftmost match
/// first; the piece before the first marker is the preamble.
pub open spec fn spec_split(s: Seq<char>) -> Seq<Seq<char>>
    decreases s.len(),
{
    if s.len() < 2 {
        seq![s]
    } else if s[0] == '>' && s[1] == ' ' {
        seq![Seq::<char>::empty()] + spec_split(s.skip(2))
    } else {
        prepend_first(seq![s[0]], spec_split(s.skip(1)))
    }
}

pub proof fn lemma_split_len(s: Seq<char>)
    ensures
        spec_split(s).len() >= 1,
    decreases s.len(),
{
    if s.len() >= 2 {
        if s[0] == '>' && s[1] == ' ' {
            lemma_split_len(s.skip(2));
        } else {
            lemma_split_len(s.skip(1));
        }
    }
}

proof fn lemma_prepend_prepend(a: Seq<char>, b: Seq<char>, r: Seq<Seq<char>>)
    requires
        r.len() >= 1,
    ensures
        prepend_first(a, prepend_first(b, r)) == prepend_first(a + b, r),
{
    assert(a + (b + r[0]) =~= (a + b) + r[0]);
    assert(prepend_first(a, prepend_first(b, r)) =~~= prepend_first(a + b, r));
}

/// Splits a raw vote text on the block marker `"> "`.
pub fn split_blocks(s: &str) -> (r: Vec<String>)
    ensures
        r.deep_view() == spec_split(s@),
        r@.len() >= 1,
{
    let n = s.unicode_len();
    let mut segs: Vec<String> = Vec::new();
    let mut start: usize = 0;
    let mut i: usize = 0;
    proof {
        assert(s@.skip(0) =~= s@);
        assert(s@.subrange(0, 0) =~= Seq::<char>::empty());
        lemma_split_len(s@);
        assert(prepend_first(Seq::<char>::empty(), spec_split(s@)) =~~= spec_split(s@));
    }
    while i < n && i + 1 < n
        invariant
            start <= i <= n,
            n == s@.len(),
            spec_split(s@) == segs.deep_view() + prepend_first(
                s@.subrange(start as int, i as int),
                spec_split(s@.skip(i as int)),
            ),
        decreases n - i,
    {
        let ghost segs0 = segs.deep_view();
        let ghost piece0 = s@.subrange(start as int, i as int);
        proof {
            assert(s@.skip(i as int)[0] == s@[i as int]);
            assert(s@.skip(i as int)[1] == s@[i + 1]);
        }
        if s.get_char(i) == '>' && s.get_char(i + 1) == ' ' {
            proof {
                assert(s@.skip(i as int).skip(2) =~= s@.skip(i + 2));
                lemma_split_len(s@.skip(i + 2));
                assert(prepend_first(piece0, spec_split(s@.skip(i as int))) =~~= seq![piece0]
                    + spec_split(s@.skip(i + 2)));
            }
            let piece = s.substring_char(start, i).to_owned();
            segs.push(piece);
            proof {
                assert(segs.deep_view() =~= segs0 + seq![piece0]);
                assert(s@.subrange(i + 2, i + 2) =~= Seq::<char>::empty());
                assert(prepend_first(Seq::<char>::empty(), spec_split(s@.skip(i + 2))) =~~=
                    spec_split(s@.skip(i + 2)));
                assert((segs0 + seq![piece0]) + spec_split(s@.skip(i + 2)) =~= segs0 + (
                seq![piece0] + spec_split(s@.skip(i + 2))));
            }
            i = i + 2;
            start = i;
        } else {
            proof {
                assert(s@.skip(i as int).skip(1) =~= s@.skip(i + 1));
                lemma_split_len(s@.skip(i + 1));
                lemma_prepend_prepend(piece0, seq![s@[i as int]], spec_split(s@.skip(i + 1)));
                assert(piece0 + seq![s@[i as int]] =~= s@.subrange(start as int, i + 1));
            }
            i = i + 1;
        }
    }
    let ghost segs0 = segs.deep_view();
    let piece = s.substring_char(start, n).to_owned();
    segs.push(piece);
    proof {
        assert(segs.deep_view() =~= segs0 + seq![s@.subrange(start as int, n as int)]);
        if i < n {
            assert(s@.skip(i as int).len() == 1);
            assert(s@.subrange(start as int, i as int) + s@.skip(i as int) =~= s@.subrange(
                start as int,
                n as int,
            ));
            assert(prepend_first(
                s@.subrange(start as int, i as int),
                spec_split(s@.skip(i as int)),
            ) =~~= seq![s@.subrange(start as int, n as int)]);
        } else {
            assert(s@.skip(i as int) =~= Seq::<char>::empty());
            assert(s@.subrange(start as int, i as int) + s@.skip(i as int) =~= s@.subrange(
                start as int,
                n as int,
            ));
            assert(prepend_first(
                s@.subrange(start as int, i as int),
                spec_split(s@.skip(i as int)),
            ) =~~= seq![s@.subrange(start as int, n as int)]);
        }
        assert(segs.deep_view() =~= spec_split(s@));
    }
    segs
}

/// Splits on newline characters; every piece keeps any trailing `'\r'`.
pub open spec fn spec_split_nl(s: Seq<char>) -> Seq<Seq<char>>
    decreases s.len(),
{
    if s.len() == 0 {
        seq![s]
    } else if s[0] == '\n' {
        seq![Seq::<char>::empty()] + spec_split_nl(s.skip(1))
    } else {
        prepend_first(seq![s[0]], spec_split_nl(s.skip(1)))
    }
}

pub proof fn lemma_split_nl_len(s: Seq<char>)
    ensures
        spec_split_nl(s).len() >= 1,
    decreases s.len(),
{
    if s.len() > 0 {
        lemma_split_nl_len(s.skip(1));
    }
}

fn split_newlines(s: &str) -> (r: Vec<String>)
    ensures
        r.deep_view() == spec_split_nl(s@),
{
    let n = s.unicode_len();
    let mut segs: Vec<String> = Vec::new();
    let mut start: usize = 0;
    let mut i: usize = 0;
    proof {
        assert(s@.skip(0) =~= s@);
        assert(s@.subrange(0, 0) =~= Seq::<char>::empty());
        lemma_split_nl_len(s@);
        assert(prepend_first(Seq::<char>::empty(), spec_split_nl(s@)) =~~= spec_split_nl(s@));
    }
    while i < n
        invariant
            start <= i <= n,
            n == s@.len(),
            spec_split_nl(s@) == segs.deep_view() + prepend_first(
                s@.subrange(start as int, i as int),
                spec_split_nl(s@.skip(i as int)),
            ),
        decreases n - i,
    {
        let ghost segs0 = segs.deep_view();
        let ghost piece0 = s@.subrange(start as int, i as int);
        proof {
            assert(s@.skip(i as int)[0] == s@[i as int]);
            assert(s@.skip(i as int).skip(1) =~= s@.skip(i + 1));
        }
        if s.get_char(i) == '\n' {
            proof {
                lemma_split_nl_len(s@.skip(i + 1));
                assert(prepend_first(piece0, spec_split_nl(s@.skip(i as int))) =~~= seq![piece0]
                    + spec_split_nl(s@.skip(i + 1)));
            }
            let piece = s.substring_char(start, i).to_owned();
            segs.push(piece);
            proof {
                assert(segs.deep_view() =~= segs0 + seq![piece0]);
                assert(s@.subrange(i + 1, i + 1) =~= Seq::<char>::empty());
                assert(prepend_first(Seq::<char>::empty(), spec_split_nl(s@.skip(i + 1))) =~~=
                    spec_split_nl(s@.skip(i + 1)));
                assert((segs0 + seq![piece0]) + spec_split_nl(s@.skip(i + 1)) =~= segs0 + (
                seq![piece0] + spec_split_nl(s@.skip(i + 1))));
            }
            i = i + 1;
            start = i;
        } else {
            proof {
                lemma_split_nl_len(s@.skip(i + 1));
                lemma_prepend_prepend(piece0, seq![s@[i as int]], spec_split_nl(s@.skip(i + 1)));
                assert(piece0 + seq![s@[i as int]] =~= s@.subrange(start as int, i + 1));
            }
            i = i + 1;
        }
    }
    let ghost segs0 = segs.deep_view();
    let piece = s.substring_char(start, n).to_owned();
    segs.push(piece);
    proof {
        assert(segs.deep_view() =~= segs0 + seq![s@.subrange(start as int, n as int)]);
        assert(s@.skip(i as int) =~= Seq::<char>::empty());
        assert(prepend_first(
            s@.subrange(start as int, i as int),
            spec_split_nl(s@.skip(i as int)),
        ) =~~= seq![s@.subrange(start as int, n as int)]);
        assert(segs.deep_view() =~= spec_split_nl(s@));
    }
    segs
}

/// The line without one trailing carriage return, if any.
pub open spec fn strip_cr(l: Seq<char>) -> Seq<char> {
    if l.len() > 0 && l[l.len() - 1] == '\r' {
        l.drop_last()
    } else {
        l
    }
}

/// The lines of an already-trimmed text: split on `'\n'`, each line without a
/// trailing `'\r'`; an empty text has no lines.
pub open spec fn spec_lines(s: Seq<char>) -> Seq<Seq<char>> {
    if s.len() == 0 {
        Seq::<Seq<char>>::empty()
    } else {
        spec_split_nl(s).map_values(|l: Seq<char>| strip_cr(l))
    }
}

/// Splits an already-trimmed text into its lines.
pub fn lines_of(s: &str) -> (r: Vec<String>)
    ensures
        r.deep_view() == spec_lines(s@),
{
    let n = s.unicode_len();
    let mut out: Vec<String> = Vec::new();
    if n == 0 {
        proof {
            assert(out.deep_view() =~= spec_lines(s@));
        }
        return out;
    }
    let raw = split_newlines(s);
    for idx in 0..raw.len()
        invariant
            n == s@.len() && n > 0,
            raw.deep_view() == spec_split_nl(s@),
            out@.len() == idx,
            forall|q: int| 0 <= q < idx ==> out.deep_view()[q] == strip_cr(raw.deep_view()[q]),
    {
        let ghost out0 = out.deep_view();
        let line = &raw[idx];
        proof {
            assert(line@ == raw.deep_view()[idx as int]);
        }
        let ln = line.as_str().unicode_len();
        if ln > 0 && line.as_str().get_char(ln - 1) == '\r' {
            proof {
                assert(line@.subrange(0, ln - 1) =~= line@.drop_last());
            }
            out.push(line.as_str().substring_char(0, ln - 1).to_owned());
            proof {
                assert(out.deep_view() =~= out0.push(strip_cr(line@)));
            }
        } else {
            out.push(line.clone());
            proof {
                assert(strip_cr(line@) == line@);
                assert(out.deep_view() =~= out0.push(strip_cr(line@)));
            }
        }
    }
    proof {
        assert(out.deep_view() =~~= spec_lines(s@));
    }
    out
}

/// Normalizes the stripped-prefix token spec: the line without its maximal
/// leading run of non-alphabetic characters; the rest is kept verbatim,
/// case and punctuation included.
pub open spec fn spec_token(line: Seq<char>) -> Seq<char>
    decreases line.len(),
{
    if line.len() > 0 && !is_alpha(line[0]) {
        spec_token(line.drop_first())
    } else {
        line
    }
}

/// Normalizes one submission line into a token by stripping its maximal
/// leading run of non-alphabetic characters.
pub fn parse_group_name(vote: &str) -> (r: String)
    ensures
        r@ == spec_token(vote@),
{
    let n = vote.unicode_len();
    let mut lo: usize = 0;
    proof {
        assert(vote@.skip(0) =~= vote@);
    }
    while lo < n && !is_alpha_char(vote.get_char(lo))
        invariant
            lo <= n,
            n == vote@.len(),
            spec_token(vote@) == spec_token(vote@.skip(lo as int)),
        decreases n - lo,
    {
        proof {
            assert(vote@.skip(lo as int)[0] == vote@[lo as int]);
            assert(vote@.skip(lo as int).drop_first() =~= vote@.skip(lo + 1));
        }
        lo += 1;
    }
    proof {
        if lo < n {
            assert(vote@.skip(lo as int)[0] == vote@[lo as int]);
        } else {
            assert(vote@.skip(lo as int) =~= Seq::<char>::empty());
        }
        assert(vote@.skip(lo as int) =~= vote@.subrange(lo as int, n as int));
    }
    vote.substring_char(lo, n).to_owned()
}

/// The tokens of one vote block for submission size `k`: trim, split into
/// lines, skip the two header lines, and require exactly `k` remaining
/// lines, each normalized into a token. `None` is the fatal shape violation.
pub open spec fn spec_block_tokens(block: Seq<char>, k: int) -> Option<Seq<Seq<char>>> {
    let lines = spec_lines(spec_trim(block));
    let body = if lines.len() >= 2 {
        lines.skip(2)
    } else {
        Seq::<Seq<char>>::empty()
    };
    if body.len() == k {
        Some(body.map_values(|l: Seq<char>| spec_token(l)))
    } else {
        None
    }
}

/// The tokens of a sequence of blocks, flattened in order; `None` as soon as
/// any block violates the shape.
pub open spec fn spec_extract(blocks: Seq<Seq<char>>, k: int) -> Option<Seq<Seq<char>>>
    decreases blocks.len(),
{
    if blocks.len() == 0 {
        Some(Seq::<Seq<char>>::empty())
    } else {
        match (spec_block_tokens(blocks[0], k), spec_extract(blocks.drop_first(), k)) {
            (Some(ts), Some(rest)) => Some(ts + rest),
            _ => None,
        }
    }
}

/// All tokens of a raw vote text: split on the block marker, discard the
/// preamble before the first marker, then extract each block in order.
pub open spec fn spec_tokens(votes: Seq<char>, k: int) -> Option<Seq<Seq<char>>> {
    spec_extract(spec_split(votes).drop_first(), k)
}

/// Extracts every token of every submission, in order. Fails with
/// [`VoteError::InputShapeError`], and only with it, exactly when some block
/// has other than `k` lines after the two-line header skip.
pub fn extract(votes: &str, k: usize) -> (r: Result<Vec<String>, VoteError>)
    ensures
        r is Ok <==> spec_tokens(votes@, k as int) is Some,
        r matches Ok(toks) ==> Some(toks.deep_view()) == spec_tokens(votes@, k as int),
        r matches Err(e) ==> e == VoteError::InputShapeError,
{
    let blocks = split_blocks(votes);
    proof {
        assert(spec_split(votes@).drop_first() =~= blocks.deep_view().skip(1));
    }
    let mut toks: Vec<String> = Vec::new();
    let mut bi: usize = 1;
    while bi < blocks.len()
        invariant
            1 <= bi <= blocks.len() || blocks@.len() <= 1,
            bi >= 1,
            spec_tokens(votes@, k as int) == (match spec_extract(
                blocks.deep_view().skip(bi as int),
                k as int,
            ) {
                Some(rest) => Some(toks.deep_view() + rest),
                None => None::<Seq<Seq<char>>>,
            }),
        decreases blocks@.len() - bi,
    {
        let ghost blockview = blocks.deep_view()[bi as int];
        proof {
            assert(blocks.deep_view().skip(bi as int)[0] == blockview);
            assert(blocks.deep_view().skip(bi as int).drop_first() =~= blocks.deep_view().skip(
                bi + 1,
            ));
        }
        let block = &blocks[bi];
        let trimmed = trim_str(block.as_str());
        let lines = lines_of(trimmed.as_str());
        let body_len = if lines.len() >= 2 {
            lines.len() - 2
        } else {
            0
        };
        if body_len != k {
            proof {
                assert(spec_block_tokens(blockview, k as int) is None);
            }
            return Err(VoteError::InputShapeError);
        }
        let ghost before = toks.deep_view();
        if lines.len() >= 2 {
            for j in 2..lines.len()
                invariant
                    2 <= j <= lines@.len(),
                    toks.deep_view() == before + lines.deep_view().subrange(2, j as int).map_values(
                        |l: Seq<char>| spec_token(l),
                    ),
            {
                let ghost toks0 = toks.deep_view();
                let ghost lv = lines.deep_view()[j as int];
                proof {
                    assert(lines@[j as int]@ == lv);
                }
                let tok = parse_group_name(lines[j].as_str());
                toks.push(tok);
                proof {
                    assert(toks.deep_view() =~= toks0.push(spec_token(lv)));
                    assert(lines.deep_view().subrange(2, j + 1) =~= lines.deep_view().subrange(
                        2,
                        j as int,
                    ).push(lv));
                    assert(lines.deep_view().subrange(2, j + 1).map_values(
                        |l: Seq<char>| spec_token(l),
                    ) =~= lines.deep_view().subrange(2, j as int).map_values(
                        |l: Seq<char>| spec_token(l),
                    ).push(spec_token(lv)));
                    assert(toks.deep_view() =~~= before + lines.deep_view().subrange(
                        2,
                        j + 1,
                    ).map_values(|l: Seq<char>| spec_token(l)));
                }
            }
            proof {
                assert(lines.deep_view().subrange(2, lines.deep_view().len() as int)
                    =~= lines.deep_view().skip(2));
            }
        } else {
            proof {
                assert(Seq::<Seq<char>>::empty().map_values(|l: Seq<char>| spec_token(l))
                    =~= Seq::<Seq<char>>::empty());
                assert(toks.deep_view() =~= before + Seq::<Seq<char>>::empty().map_values(
                    |l: Seq<char>| spec_token(l),
                ));
            }
        }
        proof {
            let ts = match spec_block_tokens(blockview, k as int) {
                Some(ts) => ts,
                None => Seq::<Seq<char>>::empty(),
            };
            assert(spec_block_tokens(blockview, k as int) == Some(ts));
            assert(toks.deep_view() =~= before + ts);
            match spec_extract(blocks.deep_view().skip(bi + 1), k as int) {
                Some(rest) => {
                    assert((before + ts) + rest =~= before + (ts + rest));
                },
                None => {},
            }
        }
        bi += 1;
    }
    proof {
        assert(blocks.deep_view().skip(blocks@.len() as int) =~= Seq::<Seq<char>>::empty());
        if blocks@.len() <= 1 {
            assert(blocks@.len() == 1);
            assert(blocks.deep_view().skip(1) =~= Seq::<Seq<char>>::empty());
        }
    }
    Ok(toks)
}

} // verus!
