use vote_tally::catalog::{Group, Groups, VoteError};
use vote_tally::distance::edit_distance;
use vote_tally::pipeline::parse_votes;
use vote_tally::similarity::similarity_score;
use vote_tally::tally::Tally;
use vote_tally::text::{extract, parse_group_name, trim_str};

fn dist(a: &str, b: &str) -> usize {
    let av: Vec<char> = a.chars().collect();
    let bv: Vec<char> = b.chars().collect();
    edit_distance(&av, &bv)
}

#[test]
fn edit_distance_classics() {
    assert_eq!(dist("kitten", "sitting"), 3);
    assert_eq!(dist("", ""), 0);
    assert_eq!(dist("", "abc"), 3);
    assert_eq!(dist("abc", ""), 3);
    assert_eq!(dist("same", "same"), 0);
}

#[test]
fn edit_distance_counts_transposition_as_one() {
    assert_eq!(dist("ab", "ba"), 1);
    assert_eq!(dist("abcd", "abdc"), 1);
}

#[test]
fn similarity_score_exact_values() {
    let s = similarity_score("abc", "abd");
    assert_eq!((s.num, s.den), (2, 3));
    let s = similarity_score("", "");
    assert_eq!((s.num, s.den), (1, 1));
    let s = similarity_score("abc", "");
    assert_eq!((s.num, s.den), (0, 3));
}

#[test]
fn similarity_of_primary_name_is_one() {
    let g = Group {
        name: String::from("Alice Smith"),
        aliases: vec![String::from("Ali"), String::from("Al")],
    };
    let s = g.similarity("Alice Smith");
    assert_eq!(s.num, s.den);
    let bare = Group { name: String::from("Bob Lee"), aliases: vec![] };
    let s = bare.similarity("Bob Lee");
    assert_eq!(s.num, s.den);
}

#[test]
fn alias_can_beat_primary_name() {
    let g = Group { name: String::from("Alice Smith"), aliases: vec![String::from("Ali")] };
    let s = g.similarity("Ali");
    assert_eq!(s.num, s.den);
}

#[test]
fn parse_group_name_strips_leading_non_alphabetic() {
    assert_eq!(parse_group_name("1. Alice"), "Alice");
    assert_eq!(parse_group_name("-- Bob!"), "Bob!");
    assert_eq!(parse_group_name("Carol"), "Carol");
    assert_eq!(parse_group_name("123"), "");
    assert_eq!(parse_group_name(""), "");
    assert_eq!(parse_group_name("  > x y"), "x y");
}

#[test]
fn trim_str_strips_both_ends() {
    assert_eq!(trim_str("  hi there \n"), "hi there");
    assert_eq!(trim_str(""), "");
    assert_eq!(trim_str(" \t\r\n"), "");
}

#[test]
fn extract_collects_tokens_in_order() {
    let toks = extract("> m\nm\n1. a\n2. b\n> m\nm\n3. c\n4. d", 2).unwrap();
    assert_eq!(toks, vec!["a", "b", "c", "d"]);
}

#[test]
fn extract_rejects_wrong_shape() {
    assert_eq!(extract("> m\nm\nonly one", 2).unwrap_err(), VoteError::InputShapeError);
    // A block with no line at all after the header skip.
    assert_eq!(extract("> m\nm", 1).unwrap_err(), VoteError::InputShapeError);
}

#[test]
fn record_counts_every_call_and_dedups_tokens() {
    let mut t = Tally::new(3);
    t.record(1, String::from("tok")).unwrap();
    t.record(1, String::from("tok")).unwrap();
    t.record(1, String::from("other")).unwrap();
    assert_eq!(t.recs.len(), 1);
    assert_eq!(t.recs[0].count, 3);
    assert_eq!(t.recs[0].tokens, vec![String::from("tok"), String::from("other")]);
    assert!(t.recs[0].tokens.len() <= t.recs[0].count as usize);
}

#[test]
fn summary_integers_follow_the_formulas() {
    // Two entities with final counts 7 and 3, k = 10.
    let groups = Groups {
        group: vec![
            Group { name: String::from("one"), aliases: vec![] },
            Group { name: String::from("two"), aliases: vec![] },
        ],
    };
    let mut t = Tally::new(2);
    for i in 0..7u32 {
        t.record(0, format!("a{}", i)).unwrap();
    }
    for i in 0..3u32 {
        t.record(1, format!("b{}", i)).unwrap();
    }
    let report = t.finalize(&groups, 10).unwrap();
    assert_eq!(report.total_submissions_estimate, 1);
    assert_eq!(report.entities_not_yet_at_quota, 1);
    assert_eq!(report.rows[0].name, "one");
    assert_eq!(report.rows[1].name, "two");
}

#[test]
fn record_after_finalize_fails_and_changes_nothing() {
    let groups = Groups { group: vec![Group { name: String::from("one"), aliases: vec![] }] };
    let mut t = Tally::new(1);
    t.record(0, String::from("one")).unwrap();
    let report = t.finalize(&groups, 1).unwrap();
    assert_eq!(report.rows[0].count, 1);
    let r = t.record(0, String::from("again"));
    assert_eq!(r.unwrap_err(), VoteError::StateError);
    assert_eq!(t.recs.len(), 1);
    assert_eq!(t.recs[0].count, 1);
    assert_eq!(t.recs[0].tokens, vec![String::from("one")]);
    // A second finalize is refused the same way.
    assert_eq!(t.finalize(&groups, 1).unwrap_err(), VoteError::StateError);
}

#[test]
fn joined_aliases_use_comma_separator() {
    let groups = Groups {
        group: vec![
            Group {
                name: String::from("Alice Smith"),
                aliases: vec![String::from("Ali"), String::from("Al"), String::from("A")],
            },
        ],
    };
    let mut t = parse_votes(&groups, "> m\nm\nAli", 1).unwrap();
    let report = t.finalize(&groups, 1).unwrap();
    assert_eq!(report.rows[0].aliases_joined, "Ali, Al, A");
}

#[test]
fn error_variants_are_distinct() {
    assert_ne!(VoteError::ConfigParseError, VoteError::InputShapeError);
    assert_ne!(VoteError::InputShapeError, VoteError::StateError);
}
