use vote_tally::catalog::{Group, Groups, VoteError};
use vote_tally::pipeline::parse_votes;
use vote_tally::resolver::{resolve, resolve_with_floor};
use vote_tally::similarity::Score;

fn sample_catalog() -> Groups {
    Groups {
        group: vec![
            Group { name: String::from("Alice Smith"), aliases: vec![String::from("Ali")] },
            Group { name: String::from("Bob Lee"), aliases: vec![] },
        ],
    }
}

#[test]
fn resolves_misspelling_to_closest_entity() {
    let groups = sample_catalog();
    let idx = resolve(&groups, "Alise Smyth").unwrap();
    assert_eq!(idx, 0);
}

#[test]
fn resolve_never_fails_on_nonempty_catalog() {
    let groups = sample_catalog();
    assert!(resolve(&groups, "zzzzzz completely unrelated").is_some());
    assert!(resolve(&groups, "").is_some());
}

#[test]
fn similarity_floor_can_reject_weak_matches() {
    let groups = sample_catalog();
    // Demand at least 1/2: an unrelated token falls below it.
    let floor = Score { num: 1, den: 2 };
    assert!(resolve_with_floor(&groups, "zzzzzzzzzzzz", &floor).is_none());
    assert_eq!(resolve_with_floor(&groups, "Alice Smith", &floor), Some(0));
    // The zero floor is the reference policy: everything matches.
    let zero = Score { num: 0, den: 1 };
    assert_eq!(resolve_with_floor(&groups, "zzzzzzzzzzzz", &zero), resolve(&groups, "zzzzzzzzzzzz"));
}

#[test]
fn resolve_empty_catalog_is_none() {
    let groups = Groups { group: vec![] };
    assert!(resolve(&groups, "anything").is_none());
}

#[test]
fn resolve_tie_goes_to_first_entity() {
    let groups = Groups {
        group: vec![
            Group { name: String::from("aa"), aliases: vec![] },
            Group { name: String::from("aa"), aliases: vec![] },
        ],
    };
    assert_eq!(resolve(&groups, "aa").unwrap(), 0);
}

#[test]
fn single_line_submission_tallies_alice() {
    let groups = sample_catalog();
    let mut tally = parse_votes(&groups, "> meta\nmeta\nAlise Smyth", 1).unwrap();
    assert_eq!(tally.recs.len(), 1);
    assert_eq!(tally.recs[0].gid, 0);
    assert_eq!(tally.recs[0].count, 1);
    assert_eq!(tally.recs[0].tokens, vec![String::from("Alise Smyth")]);
    let report = tally.finalize(&groups, 1).unwrap();
    assert_eq!(report.rows.len(), 1);
    assert_eq!(report.rows[0].name, "Alice Smith");
    assert_eq!(report.rows[0].aliases_joined, "Ali");
    assert_eq!(report.rows[0].count, 1);
    assert_eq!(report.rows[0].tokens, vec![String::from("Alise Smyth")]);
}

#[test]
fn short_block_aborts_with_input_shape_error() {
    let groups = sample_catalog();
    // One line where two are required: fatal for the whole run.
    let r = parse_votes(&groups, "> meta\nmeta\nAlise Smyth", 2);
    assert_eq!(r.unwrap_err(), VoteError::InputShapeError);
}

#[test]
fn long_block_aborts_with_input_shape_error() {
    let groups = sample_catalog();
    let r = parse_votes(&groups, "> meta\nmeta\nAlice\nBob\nAli", 2);
    assert_eq!(r.unwrap_err(), VoteError::InputShapeError);
}

#[test]
fn preamble_before_first_marker_is_discarded() {
    let groups = sample_catalog();
    let tally = parse_votes(&groups, "chatter that is not a vote\n> m\nm\nBob Lee", 1).unwrap();
    assert_eq!(tally.recs.len(), 1);
    assert_eq!(tally.recs[0].gid, 1);
}

#[test]
fn no_blocks_yields_empty_tally() {
    let groups = sample_catalog();
    let tally = parse_votes(&groups, "no marker anywhere", 3).unwrap();
    assert_eq!(tally.recs.len(), 0);
}

#[test]
fn two_blocks_accumulate_counts() {
    let groups = sample_catalog();
    let votes = "> a\nb\nAli\nBob Lee\n> a\nb\nAlice Smith\nbob lee";
    let tally = parse_votes(&groups, votes, 2).unwrap();
    assert_eq!(tally.recs.len(), 2);
    // First-matched order: Alice (via "Ali") first, then Bob.
    assert_eq!(tally.recs[0].gid, 0);
    assert_eq!(tally.recs[0].count, 2);
    assert_eq!(tally.recs[1].gid, 1);
    assert_eq!(tally.recs[1].count, 2);
}

#[test]
fn crlf_lines_are_handled() {
    let groups = sample_catalog();
    let tally = parse_votes(&groups, "> m\r\nm\r\nBob Lee\r\nAli", 2).unwrap();
    assert_eq!(tally.recs.len(), 2);
    assert_eq!(tally.recs[0].gid, 1);
    assert_eq!(tally.recs[0].tokens, vec![String::from("Bob Lee")]);
}

#[test]
fn pipeline_is_deterministic() {
    let groups = sample_catalog();
    let votes = "> a\nb\nAli\nBob Lee\n> a\nb\nAlise Smyth\nbob";
    let mut t1 = parse_votes(&groups, votes, 2).unwrap();
    let mut t2 = parse_votes(&groups, votes, 2).unwrap();
    assert_eq!(t1.recs.len(), t2.recs.len());
    for (a, b) in t1.recs.iter().zip(t2.recs.iter()) {
        assert_eq!(a.gid, b.gid);
        assert_eq!(a.count, b.count);
        assert_eq!(a.tokens, b.tokens);
    }
    let r1 = t1.finalize(&groups, 2).unwrap();
    let r2 = t2.finalize(&groups, 2).unwrap();
    assert_eq!(r1.total_submissions_estimate, r2.total_submissions_estimate);
    assert_eq!(r1.entities_not_yet_at_quota, r2.entities_not_yet_at_quota);
    assert_eq!(r1.rows.len(), r2.rows.len());
    for (a, b) in r1.rows.iter().zip(r2.rows.iter()) {
        assert_eq!(a.name, b.name);
        assert_eq!(a.aliases_joined, b.aliases_joined);
        assert_eq!(a.count, b.count);
        assert_eq!(a.tokens, b.tokens);
    }
}

#[test]
fn report_rows_sorted_by_count_descending() {
    let groups = Groups {
        group: vec![
            Group { name: String::from("aaa"), aliases: vec![] },
            Group { name: String::from("bbb"), aliases: vec![] },
            Group { name: String::from("ccc"), aliases: vec![] },
        ],
    };
    let votes = "> m\nm\naaa\nbbb\nbbb\n> m\nm\nbbb\nbbb\nccc";
    let mut tally = parse_votes(&groups, votes, 3).unwrap();
    let report = tally.finalize(&groups, 3).unwrap();
    assert_eq!(report.rows.len(), 3);
    assert_eq!(report.rows[0].name, "bbb");
    assert_eq!(report.rows[0].count, 4);
    // Equal counts keep first-matched order: aaa was matched before ccc.
    assert_eq!(report.rows[1].name, "aaa");
    assert_eq!(report.rows[2].name, "ccc");
}
