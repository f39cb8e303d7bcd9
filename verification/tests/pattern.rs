use fuzzyrs::pattern::{parse_term, parse_terms, term_from_chars, TermMatcher};
use fuzzyrs::walk::is_hidden;
use fuzzyrs::{MatchOptions, Matcher, Pattern};

fn with_positions() -> MatchOptions {
    MatchOptions { case_sensitive: false, match_position: true }
}

#[test]
fn pattern_needs_every_term() {
    let pattern = Pattern::new("'ABC DEF", with_positions());
    let both = pattern.matches(b"xABCx D-E-F").unwrap();
    assert_eq!(both.len(), 2);
    assert_eq!(both[0].score, 3);
    assert_eq!(both[0].matches, Some(vec![1, 2, 3]));
    assert_eq!(both[1].score, 30);
    assert_eq!(both[1].matches, Some(vec![6, 8, 10]));
    // Without the contiguous run, or without the subsequence, nothing matches.
    assert!(pattern.matches(b"xABx D-E-F").is_none());
    assert!(pattern.matches(b"xA-B-Cx D-E-F").is_none());
    assert!(pattern.matches(b"xABCx D-E").is_none());
    assert!(pattern.matches(b"").is_none());
}

#[test]
fn pattern_keeps_the_order_of_its_terms() {
    let pattern = Pattern::new("DEF 'ABC", with_positions());
    let results = pattern.matches(b"ABC DEF").unwrap();
    assert_eq!(results.len(), 2);
    assert_eq!(results[0].score, 22);
    assert_eq!(results[0].matches, Some(vec![4, 5, 6]));
    assert_eq!(results[1].score, 20);
    assert_eq!(results[1].matches, Some(vec![0, 1, 2]));
}

#[test]
fn pattern_terms_do_not_share_the_scan() {
    // Both terms match the same characters.
    let pattern = Pattern::new("AB 'AB", with_positions());
    let results = pattern.matches(b"AB").unwrap();
    assert_eq!(results[0].score, 26);
    assert_eq!(results[0].matches, Some(vec![0, 1]));
    assert_eq!(results[1].score, 20);
    assert_eq!(results[1].matches, Some(vec![0, 1]));
}

#[test]
fn pattern_without_positions() {
    let pattern = Pattern::new("'ABC DEF", MatchOptions::default());
    let results = pattern.matches(b"ABC DEF").unwrap();
    assert_eq!(results.len(), 2);
    assert_eq!(results[0].score, 20);
    assert_eq!(results[0].matches, None);
    assert_eq!(results[1].score, 22);
    assert_eq!(results[1].matches, None);
}

#[test]
fn pattern_without_terms_matches_everything() {
    for query in ["", " ", " \t\n "] {
        let pattern = Pattern::new(query, with_positions());
        assert_eq!(pattern.matches(b"anything").map(|r| r.len()), Some(0));
        assert_eq!(pattern.matches(b"").map(|r| r.len()), Some(0));
    }
}

#[test]
fn pattern_with_an_empty_exact_term_matches_nothing() {
    let pattern = Pattern::new("'", with_positions());
    assert!(pattern.matches(b"anything").is_none());
    assert!(pattern.matches(b"'").is_none());
    let pattern = Pattern::new("a '", with_positions());
    assert!(pattern.matches(b"a").is_none());
}

#[test]
fn pattern_is_split_on_any_whitespace() {
    let pattern = Pattern::new("  a\tb\u{a0}c\n", with_positions());
    let results = pattern.matches(b"cba").unwrap();
    assert_eq!(results.len(), 3);
    assert_eq!(results[0].matches, Some(vec![2]));
    assert_eq!(results[1].matches, Some(vec![1]));
    assert_eq!(results[2].matches, Some(vec![0]));
}

#[test]
fn pattern_matches_the_same_way_every_time() {
    let pattern = Pattern::new("'src mod", with_positions());
    let first = pattern.matches(b"src/matcher/mod.rs").unwrap();
    let second = pattern.matches(b"src/matcher/mod.rs").unwrap();
    let again = Pattern::new("'src mod", with_positions()).matches(b"src/matcher/mod.rs").unwrap();
    assert_eq!(first.len(), 2);
    for k in 0..2 {
        assert_eq!(first[k].score, second[k].score);
        assert_eq!(first[k].matches, second[k].matches);
        assert_eq!(first[k].score, again[k].score);
        assert_eq!(first[k].matches, again[k].matches);
    }
    assert_eq!(first[0].score, 20);
    assert_eq!(first[0].matches, Some(vec![0, 1, 2]));
    assert_eq!(first[1].score, 19);
    assert_eq!(first[1].matches, Some(vec![4, 13, 14]));
}

#[test]
fn apostrophe_marks_an_exact_term() {
    assert!(matches!(parse_term("'ab"), TermMatcher::Exact(_)));
    assert!(matches!(parse_term("a'b"), TermMatcher::Fuzzy(_)));
    assert!(matches!(parse_term("'"), TermMatcher::Exact(_)));
    assert!(matches!(term_from_chars(vec!['\'', 'a']), TermMatcher::Exact(_)));
    assert!(matches!(term_from_chars(vec!['a']), TermMatcher::Fuzzy(_)));
    assert!(matches!(term_from_chars(vec![]), TermMatcher::Fuzzy(_)));
    let exact = parse_term("'ab");
    assert!(exact.match_term(b"ab", with_positions()).is_some());
    assert!(exact.match_term(b"a-b", with_positions()).is_none());
    assert!(exact.match_term(b"'ab", with_positions()).is_some());
    let fuzzy = parse_term("ab");
    assert!(fuzzy.match_term(b"a-b", with_positions()).is_some());
    // Only the first apostrophe is a marker.
    let quoted = parse_term("''a");
    assert!(quoted.match_term(b"a", with_positions()).is_none());
    assert!(quoted.match_term(b"'a", with_positions()).is_some());
}

#[test]
fn terms_of_a_query() {
    assert_eq!(parse_terms("").len(), 0);
    assert_eq!(parse_terms("   ").len(), 0);
    assert_eq!(parse_terms("abc").len(), 1);
    assert_eq!(parse_terms(" abc  'def\tg ").len(), 3);
    let terms = parse_terms("one 'two three");
    assert!(matches!(terms[0], TermMatcher::Fuzzy(_)));
    assert!(matches!(terms[1], TermMatcher::Exact(_)));
    assert!(matches!(terms[2], TermMatcher::Fuzzy(_)));
}

#[test]
fn hidden_names_begin_with_a_dot() {
    assert!(is_hidden(".git"));
    assert!(is_hidden("."));
    assert!(is_hidden(".."));
    assert!(!is_hidden(""));
    assert!(!is_hidden("src"));
    assert!(!is_hidden("a.b"));
    assert!(!is_hidden("é."));
}
