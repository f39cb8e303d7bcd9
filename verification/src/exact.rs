//! The substring matcher.
//!
//! A term matches a candidate when its characters occur in it as one
//! contiguous run. The candidate is read one byte offset at a time: at every
//! offset the scanner decodes the code point that starts there, and an
//! automaton over the term's failure function follows the run. A run
//! earns its bonus where the automaton enters it from its root, by the
//! class of what stands right before. Of the runs that are completed the
//! best-scoring one is reported, the earliest among equals. For a term
//! that has no border but the empty one, each occurrence is such a run,
//! entered at its own start.

use vstd::prelude::*;
use vstd::utf8::{char_u32_cast, encode_utf8, is_ascii_chars, is_ascii_chars_encode_utf8};
use crate::chars::{char_is_alphanumeric, to_chars};
use crate::failure::{
    build_failure_function, is_border, is_failure_table, lemma_link, link, resumes,
};
use crate::matcher::{MatchModel, MatchOptions, MatchResult, Matcher};
use crate::scoring::{
    bonus_at, bonus_of, lemma_bonus_bounds, state_from_value, state_of_value, InputState,
    SCORE_BEGINNING, SCORE_MATCH,
};
use crate::unicode::{code_point_at, value_at};

verus! {

/// What the automaton holds between two steps.
pub struct ExactState {
    /// The byte offset that is read next.
    pub i: int,
    /// How many characters of the term the current run has matched.
    pub j: int,
    /// Where the current run was entered from the root of the automaton.
    pub start: int,
    /// The bonus that the current run earned on entry, 0 outside a run.
    pub score: int,
    /// The start of the best occurrence so far.
    pub best_start: int,
    /// The score of the best occurrence so far, 0 while there is none.
    pub best_score: int,
}

/// The automaton before the first step.
pub open spec fn exact_start() -> ExactState {
    ExactState {
        i: 0,
        j: 0,
        start: 0,
        score: 0,
        best_start: 0,
        best_score: 0,
    }
}

/// The state in which byte offset `i` is read: the class of the code point
/// that starts one byte before it, and `Beginning` at the start of the
/// candidate.
pub open spec fn state_entering(input: Seq<u8>, i: int) -> InputState {
    if i <= 0 {
        InputState::Beginning
    } else {
        state_of_value(value_at(input, i - 1))
    }
}

/// The bonus that a run of the term earns where it is entered at byte
/// offset `p`: that of its first character after what stands before `p`.
pub open spec fn entry_bonus(term: Seq<char>, input: Seq<u8>, p: int) -> int {
    bonus_of(state_entering(input, p), char_is_alphanumeric(term[0]), 0)
}

/// One step of the automaton at byte offset `s.i < input.len()`.
///
/// On a match the run grows by one; a run that is entered at the root
/// records its start and earns its bonus there, and the characters that
/// follow in the run earn nothing. A completed run is held against the best
/// so far and replaces it only with a greater score; the automaton then
/// resumes from the longest border of the term. On a mismatch the automaton
/// follows the failure link of its position without moving on, or moves on
/// by one byte where there is none.
///
/// A run that goes on through a failure link keeps the start and the bonus
/// with which it was entered.
pub open spec fn exact_step(term: Seq<char>, input: Seq<u8>, s: ExactState) -> ExactState {
    if value_at(input, s.i) == term[s.j] as u32 {
        let start = if s.j == 0 {
            s.i
        } else {
            s.start
        };
        let score = if s.j == 0 {
            entry_bonus(term, input, s.i)
        } else {
            s.score
        };
        if s.j + 1 == term.len() {
            let better = score > s.best_score;
            ExactState {
                i: s.i + 1,
                j: link(term, term.len() as int),
                start,
                score,
                best_start: if better {
                    start
                } else {
                    s.best_start
                },
                best_score: if better {
                    score
                } else {
                    s.best_score
                },
            }
        } else {
            ExactState {
                i: s.i + 1,
                j: s.j + 1,
                start,
                score,
                best_start: s.best_start,
                best_score: s.best_score,
            }
        }
    } else {
        let l = link(term, s.j);
        let j = if l < 0 {
            0
        } else {
            l
        };
        ExactState {
            i: if l < 0 {
                s.i + 1
            } else {
                s.i
            },
            j,
            start: s.start,
            score: if j == 0 {
                0
            } else {
                s.score
            },
            best_start: s.best_start,
            best_score: s.best_score,
        }
    }
}

/// The automaton after it has read the candidate to its end.
pub open spec fn exact_run(term: Seq<char>, input: Seq<u8>, s: ExactState) -> ExactState
    decreases input.len() - s.i, s.j,
    when 0 <= s.j
{
    if s.i < input.len() {
        proof {
            lemma_link(term, s.j);
        }
        exact_run(term, input, exact_step(term, input, s))
    } else {
        s
    }
}

/// The byte offsets reported for an occurrence: one per query character,
/// counted up from the start of the run. They are the offsets of the
/// matched characters where each of them takes one byte.
pub open spec fn exact_offsets(term: Seq<char>, start: int) -> Seq<int> {
    Seq::new(term.len(), |k: int| start + k)
}

/// What the substring matcher returns for a term and a candidate.
pub open spec fn exact_model(term: Seq<char>, input: Seq<u8>, opts: MatchOptions) -> Option<
    MatchModel,
> {
    let end = exact_run(term, input, exact_start());
    if term.len() > 0 && end.best_score > 0 {
        Some(
            MatchModel {
                score: end.best_score,
                matches: if opts.match_position {
                    Some(exact_offsets(term, end.best_start))
                } else {
                    None
                },
            },
        )
    } else {
        None
    }
}

/// What holds of the automaton between any two steps of a run on a
/// non-empty term: its position lies within the term, the current run lies
/// within what was read, and the best occurrence within the candidate.
pub open spec fn exact_bounds(term: Seq<char>, input: Seq<u8>, s: ExactState) -> bool {
    &&& 0 <= s.i <= input.len()
    &&& 0 <= s.j < term.len()
    &&& s.score == 0 || SCORE_MATCH <= s.score <= SCORE_BEGINNING
    &&& s.best_score == 0 || SCORE_MATCH <= s.best_score <= SCORE_BEGINNING
    &&& s.j > 0 ==> 0 <= s.start && s.start + s.j <= s.i && s.score > 0
    &&& s.best_score > 0 ==> 0 <= s.best_start && s.best_start + term.len() <= input.len()
}

/// A step keeps the automaton within its bounds.
pub proof fn lemma_step_bounds(term: Seq<char>, input: Seq<u8>, s: ExactState)
    requires
        exact_bounds(term, input, s),
        s.i < input.len(),
    ensures
        exact_bounds(term, input, exact_step(term, input, s)),
{
    lemma_link(term, s.j);
    lemma_link(term, term.len() as int);
    assert(resumes(term, 0, term.len() as int));
    lemma_bonus_bounds(state_entering(input, s.i), char_is_alphanumeric(term[0]), 0);
}

/// Whether the term stands in the candidate from byte offset `p` on, one
/// query character at each byte offset.
pub open spec fn occurs_at(term: Seq<char>, input: Seq<u8>, p: int) -> bool {
    &&& 0 <= p
    &&& p + term.len() <= input.len()
    &&& forall|m: int| 0 <= m < term.len() ==> value_at(input, p + m) == (#[trigger] term[m]) as u32
}

/// Whether the term stands somewhere in the candidate.
pub open spec fn occurs(term: Seq<char>, input: Seq<u8>) -> bool {
    exists|p: int| occurs_at(term, input, p)
}

/// Whether the `j` byte offsets before `i` hold the first `j` characters of
/// the term.
pub open spec fn run_matches(term: Seq<char>, input: Seq<u8>, i: int, j: int) -> bool {
    &&& 0 <= j <= i
    &&& forall|m: int| 0 <= m < j ==> value_at(input, i - j + m) == (#[trigger] term[m]) as u32
}

/// Whether the automaton has passed over no occurrence unseen: an
/// occurrence that starts before the current run has been counted.
pub open spec fn none_missed(term: Seq<char>, input: Seq<u8>, s: ExactState) -> bool {
    forall|p: int| 0 <= p < s.i - s.j && #[trigger] occurs_at(term, input, p) ==> s.best_score > 0
}

/// What holds of the automaton between any two steps of a run on a
/// non-empty term.
pub open spec fn run_inv(term: Seq<char>, input: Seq<u8>, s: ExactState) -> bool {
    &&& exact_bounds(term, input, s)
    &&& run_matches(term, input, s.i, s.j)
    &&& none_missed(term, input, s)
    &&& s.best_score > 0 ==> occurs(term, input)
}

/// Two characters with the same number are the same character.
proof fn lemma_char_by_number(a: char, b: char)
    requires
        a as u32 == b as u32,
    ensures
        a == b,
{
    char_u32_cast(a, a as u32);
    char_u32_cast(b, b as u32);
}

/// After a mismatch at position `j`, no occurrence starts between the start
/// of the current run and the place from which the failure link resumes.
proof fn lemma_mismatch_skips(term: Seq<char>, input: Seq<u8>, i: int, j: int, p: int)
    requires
        run_matches(term, input, i, j),
        j < term.len(),
        i < input.len(),
        value_at(input, i) != term[j] as u32,
        i - j <= p <= i,
        i - p > link(term, j),
    ensures
        !occurs_at(term, input, p),
{
    if occurs_at(term, input, p) {
        let k = i - p;
        assert(value_at(input, p + k) == term[k] as u32);
        if k < j {
            assert forall|m: int| 0 <= m < k implies #[trigger] term[m] == term[j - k + m] by {
                assert(value_at(input, p + m) == term[m] as u32);
                let m2 = j - k + m;
                assert(value_at(input, i - j + m2) == term[m2] as u32);
                lemma_char_by_number(term[m], term[m2]);
            }
            assert(is_border(term, k, j));
            assert(resumes(term, k, j));
            lemma_link(term, j);
        }
    }
}

/// A step keeps what holds of the automaton.
pub proof fn lemma_step_inv(term: Seq<char>, input: Seq<u8>, s: ExactState)
    requires
        run_inv(term, input, s),
        s.i < input.len(),
    ensures
        run_inv(term, input, exact_step(term, input, s)),
{
    let next = exact_step(term, input, s);
    let n = term.len() as int;
    lemma_step_bounds(term, input, s);
    lemma_link(term, s.j);
    lemma_link(term, n);
    lemma_bonus_bounds(state_entering(input, s.i), char_is_alphanumeric(term[0]), 0);
    if value_at(input, s.i) == term[s.j] as u32 {
        assert(run_matches(term, input, s.i + 1, s.j + 1));
        if s.j + 1 == n {
            let p = s.i + 1 - n;
            assert(occurs_at(term, input, p)) by {
                assert forall|m: int| 0 <= m < n implies value_at(input, p + m) == (
                #[trigger] term[m]) as u32 by {
                    assert(value_at(input, (s.i + 1) - (s.j + 1) + m) == term[m] as u32);
                }
            }
            assert(next.best_score > 0);
            let b = next.j;
            assert(resumes(term, 0, n));
            assert(is_border(term, b, n));
            assert forall|m: int| 0 <= m < b implies value_at(input, next.i - b + m) == (
            #[trigger] term[m]) as u32 by {
                let m2 = n - b + m;
                assert(term[m] == term[m2]);
                assert(value_at(input, p + m2) == term[m2] as u32);
            }
        }
    } else {
        let l = link(term, s.j);
        assert forall|p: int|
            0 <= p < next.i - next.j && #[trigger] occurs_at(
                term,
                input,
                p,
            ) implies next.best_score > 0 by {
            if p >= s.i - s.j {
                lemma_mismatch_skips(term, input, s.i, s.j, p);
            }
        }
        if l >= 0 {
            assert(is_border(term, l, s.j));
            assert forall|m: int| 0 <= m < l implies value_at(input, s.i - l + m) == (
            #[trigger] term[m]) as u32 by {
                let m2 = s.j - l + m;
                assert(term[m] == term[m2]);
                assert(value_at(input, s.i - s.j + m2) == term[m2] as u32);
            }
        }
    }
}

/// A run keeps what holds of the automaton, and ends at the end of the
/// candidate.
pub proof fn lemma_run_inv(term: Seq<char>, input: Seq<u8>, s: ExactState)
    requires
        run_inv(term, input, s),
    ensures
        run_inv(term, input, exact_run(term, input, s)),
        exact_run(term, input, s).i == input.len(),
    decreases input.len() - s.i, s.j,
{
    if s.i < input.len() {
        lemma_link(term, s.j);
        lemma_step_inv(term, input, s);
        lemma_run_inv(term, input, exact_step(term, input, s));
    }
}

/// The substring matcher finds a match exactly where the term is not empty
/// and stands somewhere in the candidate.
pub proof fn lemma_exact_matches_iff_occurs(term: Seq<char>, input: Seq<u8>, opts: MatchOptions)
    ensures
        exact_model(term, input, opts) is Some <==> term.len() > 0 && occurs(term, input),
{
    if term.len() > 0 {
        let start = exact_start();
        lemma_run_inv(term, input, start);
        let end = exact_run(term, input, start);
        if occurs(term, input) {
            let p = choose|p: int| occurs_at(term, input, p);
            assert(occurs_at(term, input, p));
            assert(p < end.i - end.j);
        }
    }
}

/// Whether every mismatch inside the term sends the automaton back to its
/// root: no position resumes from a border that is not empty.
pub open spec fn resumes_at_root(term: Seq<char>) -> bool {
    forall|j: int| 0 < j < term.len() ==> #[trigger] link(term, j) <= 0
}

/// Whether the automaton starts at its root again after every occurrence:
/// the term has no border but the empty one.
pub open spec fn restarts_at_root(term: Seq<char>) -> bool {
    link(term, term.len() as int) <= 0
}

/// A term whose first character does not come again resumes and restarts
/// at the root.
pub proof fn lemma_first_character_once(term: Seq<char>)
    requires
        forall|m: int| 0 < m < term.len() ==> #[trigger] term[m] != term[0],
    ensures
        resumes_at_root(term),
        restarts_at_root(term),
{
    assert forall|j: int| 0 < j <= term.len() implies #[trigger] link(term, j) <= 0 by {
        lemma_link(term, j);
        let l = link(term, j);
        if l > 0 {
            assert(is_border(term, l, j));
            assert(term[0] == term[j - l + 0]);
        }
    }
    if term.len() == 0 {
        lemma_link(term, 0);
    }
}

/// What holds of the automaton, beyond `run_inv`, on a term that resumes
/// at the root: the best start is the start of an occurrence, and a run
/// either began where the automaton entered it or cannot beat the best.
spec fn root_inv(term: Seq<char>, input: Seq<u8>, s: ExactState) -> bool {
    &&& run_inv(term, input, s)
    &&& s.best_score > 0 ==> occurs_at(term, input, s.best_start)
    &&& s.j > 0 ==> s.start == s.i - s.j || s.score <= s.best_score
}

/// A step keeps `root_inv`.
proof fn lemma_step_root_inv(term: Seq<char>, input: Seq<u8>, s: ExactState)
    requires
        resumes_at_root(term),
        root_inv(term, input, s),
        s.i < input.len(),
    ensures
        root_inv(term, input, exact_step(term, input, s)),
{
    let next = exact_step(term, input, s);
    let n = term.len() as int;
    lemma_step_inv(term, input, s);
    lemma_link(term, s.j);
    if value_at(input, s.i) == term[s.j] as u32 {
        if s.j + 1 == n && (s.j == 0 || s.start == s.i - s.j) {
            let p = s.i + 1 - n;
            assert forall|m: int| 0 <= m < n implies value_at(input, p + m) == (
            #[trigger] term[m]) as u32 by {
                assert(value_at(input, s.i - s.j + m) == term[m] as u32);
            }
        }
    }
}

/// A run keeps `root_inv`.
proof fn lemma_run_root_inv(term: Seq<char>, input: Seq<u8>, s: ExactState)
    requires
        resumes_at_root(term),
        root_inv(term, input, s),
    ensures
        root_inv(term, input, exact_run(term, input, s)),
    decreases input.len() - s.i, s.j,
{
    if s.i < input.len() {
        lemma_link(term, s.j);
        lemma_step_root_inv(term, input, s);
        lemma_run_root_inv(term, input, exact_step(term, input, s));
    }
}

/// For a term that resumes at the root, the offsets that the substring
/// matcher reports are those of an occurrence.
pub proof fn lemma_exact_offsets_occur(term: Seq<char>, input: Seq<u8>, opts: MatchOptions)
    requires
        resumes_at_root(term),
        opts.match_position,
        exact_model(term, input, opts) is Some,
    ensures
        occurs_at(term, input, exact_model(term, input, opts)->0.matches->0[0]),
{
    lemma_run_root_inv(term, input, exact_start());
}

/// Whether the occurrence at byte offset `p` is the best one: none earns a
/// greater entry bonus than `score`, which is its own, and none that earns
/// as much starts earlier.
pub open spec fn is_best_occurrence(term: Seq<char>, input: Seq<u8>, p: int, score: int) -> bool {
    &&& occurs_at(term, input, p)
    &&& score == entry_bonus(term, input, p)
    &&& forall|q: int| #[trigger]
        occurs_at(term, input, q) ==> entry_bonus(term, input, q) <= score
    &&& forall|q: int| #[trigger]
        occurs_at(term, input, q) && entry_bonus(term, input, q) == score ==> p <= q
}

/// After an occurrence that ends before byte offset `e`, no occurrence
/// starts between its start and the place from which the automaton resumes.
proof fn lemma_occurrence_skips(term: Seq<char>, input: Seq<u8>, e: int, p: int)
    requires
        term.len() > 0,
        run_matches(term, input, e, term.len() as int),
        e - term.len() < p < e,
        e - p > link(term, term.len() as int),
    ensures
        !occurs_at(term, input, p),
{
    let n = term.len() as int;
    if occurs_at(term, input, p) {
        let k = e - p;
        assert forall|m: int| 0 <= m < k implies #[trigger] term[m] == term[n - k + m] by {
            assert(value_at(input, p + m) == term[m] as u32);
            let m2 = n - k + m;
            assert(value_at(input, e - n + m2) == term[m2] as u32);
            lemma_char_by_number(term[m], term[m2]);
        }
        assert(is_border(term, k, n));
        assert(resumes(term, k, n));
        lemma_link(term, n);
    }
}

/// What holds of the automaton, beyond `root_inv`, on a term that resumes
/// and restarts at the root: a run began where the automaton is in it and
/// holds the entry bonus of that place, and the best so far is the best of
/// the occurrences that start before the current run.
spec fn best_inv(term: Seq<char>, input: Seq<u8>, s: ExactState) -> bool {
    &&& root_inv(term, input, s)
    &&& s.j > 0 ==> s.start == s.i - s.j && s.score == entry_bonus(term, input, s.start)
    &&& s.best_score > 0 ==> s.best_score == entry_bonus(term, input, s.best_start)
        && s.best_start <= s.i - s.j
    &&& forall|q: int|
        0 <= q < s.i - s.j && #[trigger] occurs_at(term, input, q) ==> entry_bonus(term, input, q)
            <= s.best_score && (entry_bonus(term, input, q) == s.best_score ==> s.best_start
            <= q)
}

/// A step keeps `best_inv`.
proof fn lemma_step_best_inv(term: Seq<char>, input: Seq<u8>, s: ExactState)
    requires
        resumes_at_root(term),
        restarts_at_root(term),
        best_inv(term, input, s),
        s.i < input.len(),
    ensures
        best_inv(term, input, exact_step(term, input, s)),
{
    let next = exact_step(term, input, s);
    let n = term.len() as int;
    lemma_step_root_inv(term, input, s);
    lemma_link(term, s.j);
    lemma_link(term, n);
    if value_at(input, s.i) == term[s.j] as u32 {
        if s.j + 1 == n {
            let e = s.i + 1;
            let p0 = e - n;
            assert(run_matches(term, input, e, n)) by {
                assert forall|m: int| 0 <= m < n implies value_at(input, e - n + m) == (
                #[trigger] term[m]) as u32 by {
                    assert(value_at(input, s.i - s.j + m) == term[m] as u32);
                }
            }
            assert(resumes(term, 0, n));
            assert(next.j == 0);
            assert forall|q: int|
                0 <= q < next.i - next.j && #[trigger] occurs_at(
                    term,
                    input,
                    q,
                ) implies entry_bonus(term, input, q) <= next.best_score && (entry_bonus(
                term,
                input,
                q,
            ) == next.best_score ==> next.best_start <= q) by {
                if q > p0 {
                    lemma_occurrence_skips(term, input, e, q);
                }
            }
        }
    } else {
        assert forall|q: int|
            0 <= q < next.i - next.j && #[trigger] occurs_at(
                term,
                input,
                q,
            ) implies entry_bonus(term, input, q) <= next.best_score && (entry_bonus(
            term,
            input,
            q,
        ) == next.best_score ==> next.best_start <= q) by {
            if q >= s.i - s.j {
                lemma_mismatch_skips(term, input, s.i, s.j, q);
            }
        }
    }
}

/// A run keeps `best_inv`.
proof fn lemma_run_best_inv(term: Seq<char>, input: Seq<u8>, s: ExactState)
    requires
        resumes_at_root(term),
        restarts_at_root(term),
        best_inv(term, input, s),
    ensures
        best_inv(term, input, exact_run(term, input, s)),
    decreases input.len() - s.i, s.j,
{
    if s.i < input.len() {
        lemma_link(term, s.j);
        lemma_step_best_inv(term, input, s);
        lemma_run_best_inv(term, input, exact_step(term, input, s));
    }
}

/// For a term that resumes and restarts at the root, the substring matcher
/// reports the best occurrence: its score is the greatest entry bonus of
/// any occurrence, and its offsets are those of the earliest occurrence
/// that earns it.
pub proof fn lemma_exact_reports_the_best(term: Seq<char>, input: Seq<u8>, opts: MatchOptions)
    requires
        resumes_at_root(term),
        restarts_at_root(term),
        exact_model(term, input, opts) is Some,
    ensures
        is_best_occurrence(
            term,
            input,
            exact_run(term, input, exact_start()).best_start,
            exact_model(term, input, opts)->0.score,
        ),
        opts.match_position ==> exact_model(term, input, opts)->0.matches == Some(
            exact_offsets(term, exact_run(term, input, exact_start()).best_start),
        ),
{
    lemma_run_best_inv(term, input, exact_start());
    lemma_run_inv(term, input, exact_start());
    let end = exact_run(term, input, exact_start());
    assert forall|q: int| #[trigger] occurs_at(term, input, q) implies q < end.i - end.j by {}
}

/// Whether the characters of `term` stand in `text` from place `p` on.
pub open spec fn text_occurs_at(term: Seq<char>, text: Seq<char>, p: int) -> bool {
    &&& 0 <= p
    &&& p + term.len() <= text.len()
    &&& forall|m: int| 0 <= m < term.len() ==> text[p + m] == #[trigger] term[m]
}

/// Against an ASCII text the substring matcher finds a match exactly where
/// the term is not empty and stands somewhere in the text.
pub proof fn lemma_exact_on_ascii_text(term: Seq<char>, text: Seq<char>, opts: MatchOptions)
    requires
        is_ascii_chars(text),
    ensures
        exact_model(term, encode_utf8(text), opts) is Some <==> term.len() > 0 && exists|p: int|
            text_occurs_at(term, text, p),
{
    let input = encode_utf8(text);
    is_ascii_chars_encode_utf8(text);
    lemma_exact_matches_iff_occurs(term, input, opts);
    assert forall|p: int| occurs_at(term, input, p) <==> text_occurs_at(term, text, p) by {
        if 0 <= p && p + term.len() <= text.len() {
            assert forall|m: int| 0 <= m < term.len() implies (value_at(input, p + m)
                == term[m] as u32 <==> text[p + m] == #[trigger] term[m]) by {
                let c = text[p + m];
                assert(input[p + m] == c as u8);
                assert(c as u32 <= 0x7F);
                assert(value_at(input, p + m) == c as u32);
                if c as u32 == term[m] as u32 {
                    lemma_char_by_number(c, term[m]);
                }
            }
            if occurs_at(term, input, p) {
                assert forall|m: int| 0 <= m < term.len() implies text[p + m]
                    == #[trigger] term[m] by {
                    assert(value_at(input, p + m) == term[m] as u32);
                }
            }
        }
    }
    if occurs(term, input) {
        let p = choose|p: int| occurs_at(term, input, p);
        assert(text_occurs_at(term, text, p));
    }
    if exists|p: int| text_occurs_at(term, text, p) {
        let p = choose|p: int| text_occurs_at(term, text, p);
        assert(occurs_at(term, input, p));
    }
}

/// A match of the substring matcher scores what one matched character can
/// score, and the offsets it reports lie within the candidate.
pub proof fn lemma_exact_match_bounds(term: Seq<char>, input: Seq<u8>, opts: MatchOptions)
    requires
        exact_model(term, input, opts) is Some,
    ensures
        SCORE_MATCH <= exact_model(term, input, opts)->0.score <= SCORE_BEGINNING,
        opts.match_position ==> exact_model(term, input, opts)->0.matches is Some,
        !opts.match_position ==> exact_model(term, input, opts)->0.matches is None,
        forall|k: int|
            #![trigger exact_model(term, input, opts)->0.matches->0[k]]
            opts.match_position && 0 <= k < term.len() ==> 0 <= exact_model(
                term,
                input,
                opts,
            )->0.matches->0[k] < input.len(),
{
    lemma_run_inv(term, input, exact_start());
}

/// Matches a term as a contiguous run in the candidate, with the failure
/// function of the term built once and used for every candidate.
#[derive(Debug)]
pub struct ExactMatcher {
    term: Vec<char>,
    failure_function: Vec<isize>,
}

impl View for ExactMatcher {
    type V = Seq<char>;

    /// The characters of the term.
    closed spec fn view(&self) -> Seq<char> {
        self.term@
    }
}

impl ExactMatcher {
    /// The table is the failure function of the term.
    #[verifier::type_invariant]
    spec fn well_formed(self) -> bool {
        is_failure_table(self.term@, self.failure_function@)
    }

    /// Makes a matcher for the characters of `term` and builds its failure
    /// function.
    pub fn new(term: &str) -> (r: Self)
        requires
            term@.len() < isize::MAX,
        ensures
            r@ == term@,
    {
        let chars = to_chars(term);
        ExactMatcher::from_chars(chars)
    }

    /// Makes a matcher for the characters `term` and builds its failure
    /// function.
    pub fn from_chars(term: Vec<char>) -> (r: Self)
        requires
            term@.len() < isize::MAX,
        ensures
            r@ == term@,
    {
        let failure_function = build_failure_function(term.as_slice());
        ExactMatcher { term, failure_function }
    }
}

impl Matcher for ExactMatcher {
    open spec fn match_model(&self, input: Seq<u8>, opts: MatchOptions) -> Option<MatchModel> {
        exact_model(self@, input, opts)
    }

    fn match_term(&self, input: &[u8], opts: MatchOptions) -> (r: Option<MatchResult>)
        ensures
            self@.len() == 0 || input@.len() == 0 ==> r is None,
            r is Some ==> r->0.score > 0 && (r->0.matches is Some <==> opts.match_position),
    {
        proof {
            use_type_invariant(self);
        }
        let n = self.term.len();
        if n == 0 {
            return None;
        }
        let mut state = InputState::Beginning;
        let mut i: usize = 0;
        let mut j: usize = 0;
        let mut match_start: usize = 0;
        let mut match_score: isize = 0;
        let mut best_start: usize = 0;
        let mut best_score: isize = 0;
        let ghost mut cur = exact_start();
        while i < input.len()
            invariant
                n == self.term@.len(),
                n > 0,
                is_failure_table(self.term@, self.failure_function@),
                exact_bounds(self.term@, input@, cur),
                exact_run(self.term@, input@, cur) == exact_run(
                    self.term@,
                    input@,
                    exact_start(),
                ),
                cur.i == i,
                cur.j == j,
                state == state_entering(input@, i as int),
                cur.j > 0 ==> cur.start == match_start,
                cur.score == match_score,
                cur.best_score > 0 ==> cur.best_start == best_start,
                cur.best_score == best_score,
            decreases input@.len() - i, j,
        {
            proof {
                lemma_step_bounds(self.term@, input@, cur);
                lemma_link(self.term@, j as int);
            }
            let ghost prev = cur;
            let cp = code_point_at(input, i);
            let current = self.term[j];
            if cp.value == current as u32 {
                if j == 0 {
                    match_start = i;
                    match_score = bonus_at(state, current, 0);
                }
                i += 1;
                j += 1;
                state = state_from_value(cp.value);
                if j == n {
                    if match_score > best_score {
                        best_start = match_start;
                        best_score = match_score;
                    }
                    j = self.failure_function[n] as usize;
                }
            } else {
                let l = self.failure_function[j];
                if l < 0 {
                    i += 1;
                    j = 0;
                    state = state_from_value(cp.value);
                } else {
                    j = l as usize;
                }
                if j == 0 {
                    match_score = 0;
                }
            }
            proof {
                cur = exact_step(self.term@, input@, prev);
            }
        }
        if best_score > 0 {
            let matches: Option<Vec<usize>> = if opts.match_position {
                let mut offsets: Vec<usize> = Vec::new();
                let mut k: usize = 0;
                while k < n
                    invariant
                        k <= n,
                        best_start + n <= usize::MAX,
                        offsets@.len() == k,
                        forall|q: int| 0 <= q < k ==> offsets@[q] == best_start + q,
                    decreases n - k,
                {
                    offsets.push(best_start + k);
                    k += 1;
                }
                Some(offsets)
            } else {
                None
            };
            let r = MatchResult { score: best_score, matches };
            proof {
                if opts.match_position {
                    assert(r@.matches->0 =~= exact_offsets(self@, best_start as int));
                }
            }
            Some(r)
        } else {
            None
        }
    }
}

} // verus!
