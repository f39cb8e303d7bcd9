use fuzzyrs::scoring::{SCORE_BEGINNING, SCORE_BOUNDARY, SCORE_CONSECUTIVE, SCORE_MATCH};
use fuzzyrs::{ExactMatcher, FuzzyMatcher, MatchOptions, MatchResult, Matcher};

fn opts_default() -> MatchOptions {
    MatchOptions { case_sensitive: false, match_position: false }
}

fn opts_position() -> MatchOptions {
    MatchOptions { case_sensitive: false, match_position: true }
}

fn assert_match_success(result: Option<MatchResult>, score: isize) {
    assert!(result.is_some());
    if let Some(result) = result {
        assert_eq!(result.score, score);
        assert_eq!(result.matches, None);
    }
}

fn assert_match_positions(result: Option<MatchResult>, score: isize, positions: Vec<usize>) {
    assert!(result.is_some());
    if let Some(result) = result {
        assert_eq!(result.score, score);
        assert_eq!(result.matches, Some(positions));
    }
}

fn assert_match_failure(result: Option<MatchResult>) {
    assert!(result.is_none());
}

fn run_fuzzy_match(term: &str, input: &[u8], opts: MatchOptions) -> Option<MatchResult> {
    FuzzyMatcher::new(term).match_term(input, opts)
}

fn run_exact_match(term: &str, input: &[u8], opts: MatchOptions) -> Option<MatchResult> {
    ExactMatcher::new(term).match_term(input, opts)
}

#[test]
fn fuzzy_matcher() {
    assert_match_success(run_fuzzy_match("ABC", b"ADDD BDDD CDDD", opts_default()), SCORE_BEGINNING + 2 * SCORE_BOUNDARY);
    assert_match_success(run_fuzzy_match("ABC", b"ABC", opts_default()), SCORE_BEGINNING + 2 * SCORE_MATCH + 2 * SCORE_CONSECUTIVE);
    assert_match_success(run_fuzzy_match("ABC", b"DDD ADDD BDDD CDDD", opts_default()), 3 * SCORE_BOUNDARY);
    assert_match_success(run_fuzzy_match("ABC", b"DDD ADDD BCDDD CDDD ABC", opts_default()), 2 * SCORE_BOUNDARY + SCORE_MATCH + SCORE_CONSECUTIVE);
    assert_match_success(run_fuzzy_match("ABC", b"AB\xd8\x3fC", opts_default()), SCORE_BEGINNING + 2 * SCORE_MATCH + SCORE_CONSECUTIVE);

    assert_match_positions(run_fuzzy_match("ABC", b"ADDD BDDD CDDD", opts_position()), SCORE_BEGINNING + 2 * SCORE_BOUNDARY, vec![0, 5, 10]);
    assert_match_positions(run_fuzzy_match("ABC", b"ABC", opts_position()), SCORE_BEGINNING + 2 * SCORE_MATCH + 2 * SCORE_CONSECUTIVE, vec![0, 1, 2]);
    assert_match_positions(run_fuzzy_match("ABC", b"DDD ADDD BDDD CDDD", opts_position()), 3 * SCORE_BOUNDARY, vec![4, 9, 14]);
    assert_match_positions(run_fuzzy_match("ABC", b"DDD ADDD BCDDD CDDD ABC", opts_position()), 2 * SCORE_BOUNDARY + SCORE_MATCH + SCORE_CONSECUTIVE, vec![4, 9, 10]);
    assert_match_positions(run_fuzzy_match("ABC", b"AB\xd8\x3fC", opts_position()), SCORE_BEGINNING + 2 * SCORE_MATCH + SCORE_CONSECUTIVE, vec![0, 1, 4]);

    assert_match_failure(run_fuzzy_match("ABC", b"AB", opts_default()));
    assert_match_failure(run_fuzzy_match("ABC", b"DDD AB", opts_default()));
    assert_match_failure(run_fuzzy_match("ABC", b"DDD ADDD BDDD", opts_default()));
}

#[test]
fn exact_matcher() {
    assert_match_success(run_exact_match("ABC", b"ABC", opts_default()), SCORE_BEGINNING);
    assert_match_success(run_exact_match("ABC", b"DDDABC", opts_default()), SCORE_MATCH);
    assert_match_success(run_exact_match("ABC", b"DDDABC ABC", opts_default()), SCORE_BOUNDARY);

    assert_match_positions(run_exact_match("ABC", b"ABC", opts_position()), SCORE_BEGINNING, vec![0, 1, 2]);
    assert_match_positions(run_exact_match("ABC", b"DDDABC", opts_position()), SCORE_MATCH, vec![3, 4, 5]);
    assert_match_positions(run_exact_match("ABC", b"DDDABC ABC", opts_position()), SCORE_BOUNDARY, vec![7, 8, 9]);

    assert_match_failure(run_exact_match("ABC", b"AB", opts_default()));
    assert_match_failure(run_exact_match("ABC", b"AB\xd8\x3fC", opts_default()));
    assert_match_failure(run_exact_match("ABC", b"ABDC", opts_default()));
}

#[test]
fn scores_are_the_documented_numbers() {
    assert_match_success(run_fuzzy_match("ABC", b"ADDD BDDD CDDD", opts_default()), 40);
    assert_match_success(run_fuzzy_match("ABC", b"ABC", opts_default()), 32);
    assert_match_success(run_fuzzy_match("ABC", b"DDD ADDD BDDD CDDD", opts_default()), 30);
    assert_match_success(run_fuzzy_match("ABC", b"AB\xd8\x3fC", opts_default()), 29);
    assert_match_success(run_exact_match("ABC", b"ABC", opts_default()), 20);
    assert_match_success(run_exact_match("ABC", b"DDDABC", opts_default()), 3);
    assert_match_success(run_exact_match("ABC", b"DDDABC ABC", opts_default()), 10);
}

#[test]
fn empty_query_never_matches() {
    assert_match_failure(run_fuzzy_match("", b"ABC", opts_default()));
    assert_match_failure(run_fuzzy_match("", b"ABC", opts_position()));
    assert_match_failure(run_exact_match("", b"ABC", opts_default()));
    assert_match_failure(run_exact_match("", b"ABC", opts_position()));
    assert_match_failure(run_fuzzy_match("", b"", opts_default()));
    assert_match_failure(run_exact_match("", b"", opts_default()));
}

#[test]
fn empty_candidate_never_matches() {
    assert_match_failure(run_fuzzy_match("ABC", b"", opts_default()));
    assert_match_failure(run_fuzzy_match("A", b"", opts_position()));
    assert_match_failure(run_exact_match("ABC", b"", opts_default()));
    assert_match_failure(run_exact_match("A", b"", opts_position()));
}

#[test]
fn fuzzy_is_greedy_and_leftmost() {
    // A later alignment would score 30; the first one that completes is taken.
    assert_match_positions(run_fuzzy_match("AB", b"AxB AB", opts_position()), 23, vec![0, 2]);
    assert_match_positions(run_fuzzy_match("AB", b"xA-B AB", opts_position()), 13, vec![1, 3]);
}

#[test]
fn fuzzy_single_character() {
    assert_match_positions(run_fuzzy_match("A", b"A", opts_position()), 20, vec![0]);
    assert_match_positions(run_fuzzy_match("A", b" A", opts_position()), 10, vec![1]);
    assert_match_positions(run_fuzzy_match("A", b"-A", opts_position()), 10, vec![1]);
    assert_match_positions(run_fuzzy_match("A", b"xA", opts_position()), 3, vec![1]);
    assert_match_positions(run_fuzzy_match("-", b"x-", opts_position()), 10, vec![1]);
    assert_match_positions(run_fuzzy_match("-", b"--", opts_position()), 20, vec![0]);
    assert_match_positions(run_fuzzy_match("-", b"+-", opts_position()), 3, vec![1]);
}

#[test]
fn fuzzy_counts_distance_in_code_points() {
    // "é" takes two bytes and one place: the match after it is consecutive.
    let candidate = "éab".as_bytes();
    assert_match_positions(run_fuzzy_match("éa", candidate, opts_position()), 26, vec![0, 2]);
    assert_match_positions(run_fuzzy_match("ab", candidate, opts_position()), 9, vec![2, 3]);
    assert_match_positions(run_fuzzy_match("éb", candidate, opts_position()), 23, vec![0, 3]);
}

#[test]
fn fuzzy_follows_the_declared_width() {
    // 0xC1 announces two bytes, so 0x81 is passed over and never read as a start.
    assert_match_positions(run_fuzzy_match("AA", b"\xc1\x81A", opts_position()), 26, vec![0, 2]);
    assert_match_failure(run_fuzzy_match("AA", b"\xc1\x81", opts_default()));
    // A sequence cut short at the end of the candidate still counts as one code point.
    assert_match_positions(run_fuzzy_match("A", b"A\xe2", opts_position()), 20, vec![0]);
    assert_match_failure(run_fuzzy_match("AB", b"A\xe2B", opts_default()));
}

#[test]
fn fuzzy_ignores_case_sensitivity_option() {
    let on = MatchOptions { case_sensitive: true, match_position: true };
    let off = MatchOptions { case_sensitive: false, match_position: true };
    assert_match_failure(run_fuzzy_match("abc", b"ABC", on));
    assert_match_failure(run_fuzzy_match("abc", b"ABC", off));
    assert_match_positions(run_fuzzy_match("ABC", b"ABC", on), 32, vec![0, 1, 2]);
    assert_match_failure(run_exact_match("abc", b"ABC", on));
    assert_match_failure(run_exact_match("abc", b"ABC", off));
    assert_match_positions(run_exact_match("ABC", b"ABC", on), 20, vec![0, 1, 2]);
}

#[test]
fn exact_keeps_the_earliest_of_equal_scores() {
    assert_match_positions(run_exact_match("AB", b"xAB xAB", opts_position()), 3, vec![1, 2]);
    assert_match_positions(run_exact_match("AB", b" AB AB", opts_position()), 10, vec![1, 2]);
    assert_match_positions(run_exact_match("AB", b"xAB AB", opts_position()), 10, vec![4, 5]);
}

#[test]
fn exact_finds_overlapping_occurrences() {
    assert_match_positions(run_exact_match("AA", b"AAA", opts_position()), 20, vec![0, 1]);
    assert_match_positions(run_exact_match("ABAB", b"xABABAB", opts_position()), 3, vec![1, 2, 3, 4]);
    assert_match_positions(run_exact_match("AAB", b"AAAB", opts_position()), 20, vec![0, 1, 2]);
}

#[test]
fn exact_resumes_after_a_partial_run() {
    assert_match_positions(run_exact_match("ABC", b"ABABC", opts_position()), 3, vec![2, 3, 4]);
    assert_match_positions(run_exact_match("ABAA", b"xABABAA", opts_position()), 3, vec![1, 2, 3, 4]);
    assert_match_positions(run_exact_match("ABAAB", b"ABAABAAB", opts_position()), 20, vec![0, 1, 2, 3, 4]);
}

#[test]
fn exact_scores_a_run_by_what_stands_before_it() {
    // The run at byte 2 is entered after a partial run; '.' and '-' stand before it.
    assert_match_positions(run_exact_match("A.B", b"A.A.B", opts_position()), 10, vec![2, 3, 4]);
    assert_match_positions(run_exact_match("A-B", b"A-A-B", opts_position()), 10, vec![2, 3, 4]);
    assert_match_positions(run_exact_match("A B", b"A A B", opts_position()), 10, vec![2, 3, 4]);
    assert_match_positions(run_exact_match("AxB", b"AxAxB", opts_position()), 3, vec![2, 3, 4]);
    assert_match_positions(run_exact_match("-A", b"--A", opts_position()), 3, vec![1, 2]);
    assert_match_positions(run_exact_match("-A", b"x--A", opts_position()), 3, vec![2, 3]);
    assert_match_positions(run_exact_match("-A", b"x-x-A", opts_position()), 10, vec![3, 4]);
}

#[test]
fn exact_reports_the_best_occurrence() {
    assert_match_positions(run_exact_match("AB", b"xAB-AB AB", opts_position()), 10, vec![4, 5]);
    assert_match_positions(run_exact_match("AB", b"AB AB-AB", opts_position()), 20, vec![0, 1]);
    assert_match_positions(run_exact_match("AB", b"xAB AB-AB", opts_position()), 10, vec![4, 5]);
    assert_match_positions(run_exact_match("AB", b"xABxAB", opts_position()), 3, vec![1, 2]);
}

#[test]
fn exact_single_character() {
    assert_match_positions(run_exact_match("A", b"A", opts_position()), 20, vec![0]);
    assert_match_positions(run_exact_match("A", b"xxA A", opts_position()), 10, vec![4]);
    assert_match_failure(run_exact_match("A", b"xyz", opts_position()));
}

#[test]
fn exact_needs_the_whole_run() {
    assert_match_failure(run_exact_match("ABC", b"A", opts_default()));
    assert_match_failure(run_exact_match("ABC", b"AB C", opts_default()));
    assert_match_failure(run_exact_match("ABC", b"ACB", opts_default()));
    assert_match_failure(run_exact_match("ABC", b"A B C", opts_position()));
    assert_match_success(run_exact_match("ABC", b"A B C ABC", opts_default()), 10);
}

#[test]
fn exact_offsets_count_up_from_the_start() {
    let candidate = "xé".as_bytes();
    assert_match_positions(run_exact_match("é", candidate, opts_position()), 3, vec![1]);
    assert_match_positions(run_exact_match("ABC", b"  ABC", opts_position()), 10, vec![2, 3, 4]);
}

#[test]
fn matching_twice_gives_the_same_result() {
    let fuzzy = FuzzyMatcher::new("ABC");
    let first = fuzzy.match_term(b"DDD ADDD BCDDD CDDD ABC", opts_position()).unwrap();
    let second = fuzzy.match_term(b"DDD ADDD BCDDD CDDD ABC", opts_position()).unwrap();
    assert_eq!(first.score, second.score);
    assert_eq!(first.matches, second.matches);
    let exact = ExactMatcher::new("ABC");
    let first = exact.match_term(b"DDDABC ABC", opts_position()).unwrap();
    let second = exact.match_term(b"DDDABC ABC", opts_position()).unwrap();
    assert_eq!(first.score, second.score);
    assert_eq!(first.matches, second.matches);
}

#[test]
fn default_options_ask_for_nothing() {
    let opts = MatchOptions::default();
    assert!(!opts.case_sensitive);
    assert!(!opts.match_position);
}

#[test]
fn matchers_from_characters() {
    let fuzzy = FuzzyMatcher::from_chars(vec!['A', 'B', 'C']);
    assert_match_positions(fuzzy.match_term(b"ADDD BDDD CDDD", opts_position()), 40, vec![0, 5, 10]);
    let exact = ExactMatcher::from_chars(vec!['A', 'B', 'C']);
    assert_match_positions(exact.match_term(b"DDDABC ABC", opts_position()), 10, vec![7, 8, 9]);
    assert_match_failure(FuzzyMatcher::from_chars(vec![]).match_term(b"ABC", opts_default()));
    assert_match_failure(ExactMatcher::from_chars(vec![]).match_term(b"ABC", opts_default()));
}

#[test]
fn a_match_scores_more_than_nothing() {
    for candidate in [&b"ABC"[..], &b"xAxBxC"[..], &b"--A--B--C"[..], &b"ABCABC"[..]] {
        let fuzzy = run_fuzzy_match("ABC", candidate, opts_default()).unwrap();
        assert!(fuzzy.score >= 3 * SCORE_MATCH);
        assert!(fuzzy.score <= 3 * (SCORE_BEGINNING + SCORE_CONSECUTIVE));
    }
    for candidate in [&b"ABC"[..], &b"xABC"[..], &b"-ABC"[..], &b" ABC"[..]] {
        let exact = run_exact_match("ABC", candidate, opts_default()).unwrap();
        assert!(exact.score >= SCORE_MATCH);
        assert!(exact.score <= SCORE_BEGINNING);
    }
}
