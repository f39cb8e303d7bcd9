//! The subsequence matcher.
//!
//! A term matches a candidate when its characters occur among the
//! candidate's code points in order, not necessarily next to each other.
//! The matcher is greedy: each query character is matched at the first
//! code point after the previous match that equals it, and no other
//! alignment is tried.

use vstd::prelude::*;
use vstd::utf8::{char_u32_cast, encode_utf8};
use crate::chars::{char_is_alphanumeric, to_chars};
use crate::matcher::{MatchModel, MatchOptions, MatchResult, Matcher};
use crate::scoring::{
    bonus_at, bonus_of, lemma_bonus_bounds, state_from_value, state_of_value, InputState,
    SCORE_MATCH, SCORE_MAX,
};
use crate::unicode::{
    code_point_at, lemma_scan_of_encoding, lemma_scan_offsets, scan, scan_from, value_at,
    width_at, Scanned,
};

verus! {

/// The least index `p >= from` at which `cps` holds the value `c`, or
/// `cps.len()` where there is none.
pub open spec fn first_from(cps: Seq<Scanned>, c: u32, from: int) -> int
    decreases cps.len() - from,
{
    if 0 <= from < cps.len() {
        if cps[from].value == c {
            from
        } else {
            first_from(cps, c, from + 1)
        }
    } else {
        cps.len() as int
    }
}

/// The index of the code point that the greedy scan matches with query
/// character `k`: the first one after the match of character `k - 1` that
/// equals it. It is `cps.len()` where the scan runs out before that.
pub open spec fn greedy_pos(term: Seq<char>, cps: Seq<Scanned>, k: int) -> int
    decreases k,
{
    if k <= 0 {
        first_from(cps, term[0] as u32, 0)
    } else {
        first_from(cps, term[k] as u32, greedy_pos(term, cps, k - 1) + 1)
    }
}

/// The state in which the scan meets code point `p`.
pub open spec fn state_before(cps: Seq<Scanned>, p: int) -> InputState {
    if p <= 0 {
        InputState::Beginning
    } else {
        state_of_value(cps[p - 1].value)
    }
}

/// The bonus that query character `k` earns where the greedy scan matches it.
pub open spec fn term_bonus(term: Seq<char>, cps: Seq<Scanned>, k: int) -> int {
    let p = greedy_pos(term, cps, k);
    let distance = if k <= 0 {
        0
    } else {
        p - greedy_pos(term, cps, k - 1)
    };
    bonus_of(state_before(cps, p), char_is_alphanumeric(term[k]), distance)
}

/// The sum of the bonuses of the first `n` query characters.
pub open spec fn fuzzy_score(term: Seq<char>, cps: Seq<Scanned>, n: int) -> int
    decreases n,
{
    if n <= 0 {
        0
    } else {
        fuzzy_score(term, cps, n - 1) + term_bonus(term, cps, n - 1)
    }
}

/// Whether the greedy scan matches every query character.
pub open spec fn fuzzy_matched(term: Seq<char>, cps: Seq<Scanned>) -> bool {
    term.len() > 0 && greedy_pos(term, cps, term.len() - 1) < cps.len()
}

/// The byte offsets at which the greedy scan matches the query characters.
pub open spec fn fuzzy_offsets(term: Seq<char>, cps: Seq<Scanned>) -> Seq<int> {
    Seq::new(term.len(), |k: int| cps[greedy_pos(term, cps, k)].offset)
}

/// What the subsequence matcher returns for a term and a candidate.
pub open spec fn fuzzy_model(term: Seq<char>, input: Seq<u8>, opts: MatchOptions) -> Option<
    MatchModel,
> {
    let cps = scan(input);
    if fuzzy_matched(term, cps) {
        Some(
            MatchModel {
                score: fuzzy_score(term, cps, term.len() as int),
                matches: if opts.match_position {
                    Some(fuzzy_offsets(term, cps))
                } else {
                    None
                },
            },
        )
    } else {
        None
    }
}

/// `first_from` returns the first index from `from` on that holds `c`.
pub proof fn lemma_first_from(cps: Seq<Scanned>, c: u32, from: int)
    requires
        0 <= from,
    ensures
        from <= first_from(cps, c, from) || first_from(cps, c, from) == cps.len(),
        first_from(cps, c, from) <= cps.len(),
        first_from(cps, c, from) < cps.len() ==> cps[first_from(cps, c, from)].value == c,
        forall|q: int| from <= q < first_from(cps, c, from) ==> (#[trigger] cps[q]).value != c,
    decreases cps.len() - from,
{
    if from < cps.len() && cps[from].value != c {
        lemma_first_from(cps, c, from + 1);
    }
}

/// The greedy positions lie within the scan, or at its end.
pub proof fn lemma_greedy_bounds(term: Seq<char>, cps: Seq<Scanned>, k: int)
    ensures
        0 <= greedy_pos(term, cps, k) <= cps.len(),
        greedy_pos(term, cps, k) < cps.len() ==> cps[greedy_pos(term, cps, k)].value
            == term[if k <= 0 { 0 } else { k }] as u32,
        k > 0 ==> greedy_pos(term, cps, k - 1) < greedy_pos(term, cps, k) || greedy_pos(
            term,
            cps,
            k,
        ) == cps.len(),
    decreases k,
{
    if k <= 0 {
        lemma_first_from(cps, term[0] as u32, 0);
    } else {
        lemma_greedy_bounds(term, cps, k - 1);
        lemma_first_from(cps, term[k] as u32, greedy_pos(term, cps, k - 1) + 1);
    }
}

/// Once the scan has run out, it has run out for every later query character.
pub proof fn lemma_greedy_stuck(term: Seq<char>, cps: Seq<Scanned>, k: int, later: int)
    requires
        0 <= k <= later,
        greedy_pos(term, cps, k) == cps.len(),
    ensures
        greedy_pos(term, cps, later) == cps.len(),
    decreases later - k,
{
    if k < later {
        lemma_greedy_stuck(term, cps, k, later - 1);
    }
}

/// The bonuses of `n` query characters sum to at most `n` times the largest bonus.
pub proof fn lemma_fuzzy_score_bounds(term: Seq<char>, cps: Seq<Scanned>, n: int)
    requires
        0 <= n,
    ensures
        n * SCORE_MATCH <= fuzzy_score(term, cps, n) <= n * SCORE_MAX,
    decreases n,
{
    if n > 0 {
        lemma_fuzzy_score_bounds(term, cps, n - 1);
        let p = greedy_pos(term, cps, n - 1);
        let distance = if n - 1 <= 0 {
            0
        } else {
            p - greedy_pos(term, cps, n - 2)
        };
        lemma_bonus_bounds(
            state_before(cps, p),
            char_is_alphanumeric(term[n - 1]),
            distance,
        );
    }
}

/// Whether `at` places the query characters on code points of the scan:
/// each character on a code point that equals it, in increasing order.
pub open spec fn is_embedding(term: Seq<char>, cps: Seq<Scanned>, at: Seq<int>) -> bool {
    &&& at.len() == term.len()
    &&& forall|k: int|
        0 <= k < term.len() ==> 0 <= #[trigger] at[k] < cps.len() && cps[at[k]].value
            == term[k] as u32
    &&& forall|k: int| 0 < k < term.len() ==> at[k - 1] < #[trigger] at[k]
}

/// Whether the query characters occur among the code points in order.
pub open spec fn is_subsequence(term: Seq<char>, cps: Seq<Scanned>) -> bool {
    exists|at: Seq<int>| is_embedding(term, cps, at)
}

/// The places at which the greedy scan matches the query characters.
pub open spec fn greedy_places(term: Seq<char>, cps: Seq<Scanned>) -> Seq<int> {
    Seq::new(term.len(), |k: int| greedy_pos(term, cps, k))
}

/// The greedy scan is leftmost: it matches every query character no later
/// than any other placement of the term does.
pub proof fn lemma_greedy_is_leftmost(term: Seq<char>, cps: Seq<Scanned>, at: Seq<int>, k: int)
    requires
        is_embedding(term, cps, at),
        0 <= k < term.len(),
    ensures
        greedy_pos(term, cps, k) <= at[k],
    decreases k,
{
    let from = if k == 0 {
        0
    } else {
        greedy_pos(term, cps, k - 1) + 1
    };
    if k > 0 {
        lemma_greedy_is_leftmost(term, cps, at, k - 1);
        lemma_greedy_bounds(term, cps, k - 1);
    }
    lemma_first_from(cps, term[k] as u32, from);
    let p = first_from(cps, term[k] as u32, from);
    if at[k] < p {
        assert(cps[at[k]].value != term[k] as u32);
    }
}

/// Where the greedy scan matches the last query character, it has matched
/// them all, and the places at which it did are a placement of the term.
pub proof fn lemma_greedy_is_embedding(term: Seq<char>, cps: Seq<Scanned>)
    requires
        fuzzy_matched(term, cps),
    ensures
        is_embedding(term, cps, greedy_places(term, cps)),
{
    let at = greedy_places(term, cps);
    assert forall|k: int| 0 <= k < term.len() implies 0 <= #[trigger] at[k] < cps.len()
        && cps[at[k]].value == term[k] as u32 by {
        lemma_greedy_bounds(term, cps, k);
        if greedy_pos(term, cps, k) == cps.len() {
            lemma_greedy_stuck(term, cps, k, term.len() - 1);
        }
    }
    assert forall|k: int| 0 < k < term.len() implies at[k - 1] < #[trigger] at[k] by {
        lemma_greedy_bounds(term, cps, k);
        lemma_greedy_bounds(term, cps, k - 1);
        if greedy_pos(term, cps, k) == cps.len() {
            lemma_greedy_stuck(term, cps, k, term.len() - 1);
        }
    }
}

/// The subsequence matcher finds a match exactly where the term is not
/// empty and its characters occur among the candidate's code points in
/// order.
pub proof fn lemma_fuzzy_matches_iff_subsequence(
    term: Seq<char>,
    input: Seq<u8>,
    opts: MatchOptions,
)
    ensures
        fuzzy_model(term, input, opts) is Some <==> term.len() > 0 && is_subsequence(
            term,
            scan(input),
        ),
{
    let cps = scan(input);
    if fuzzy_matched(term, cps) {
        lemma_greedy_is_embedding(term, cps);
    }
    if term.len() > 0 && is_subsequence(term, cps) {
        let at = choose|at: Seq<int>| is_embedding(term, cps, at);
        lemma_greedy_is_leftmost(term, cps, at, term.len() - 1);
    }
}

/// Whether `at` places the characters of `term` on equal characters of
/// `text`, in increasing order.
pub open spec fn is_text_embedding(term: Seq<char>, text: Seq<char>, at: Seq<int>) -> bool {
    &&& at.len() == term.len()
    &&& forall|k: int|
        0 <= k < term.len() ==> 0 <= #[trigger] at[k] < text.len() && text[at[k]] == term[k]
    &&& forall|k: int| 0 < k < term.len() ==> at[k - 1] < #[trigger] at[k]
}

/// Against the UTF-8 encoding of a text the subsequence matcher finds a
/// match exactly where the term is not empty and its characters occur among
/// the characters of the text in order.
pub proof fn lemma_fuzzy_on_text(term: Seq<char>, text: Seq<char>, opts: MatchOptions)
    ensures
        fuzzy_model(term, encode_utf8(text), opts) is Some <==> term.len() > 0 && exists|
            at: Seq<int>,
        |
            is_text_embedding(term, text, at),
{
    let input = encode_utf8(text);
    let cps = scan(input);
    lemma_scan_of_encoding(text);
    lemma_fuzzy_matches_iff_subsequence(term, input, opts);
    if term.len() > 0 && is_subsequence(term, cps) {
        let at = choose|at: Seq<int>| is_embedding(term, cps, at);
        assert forall|k: int| 0 <= k < term.len() implies text[#[trigger] at[k]] == term[k] by {
            assert(cps[at[k]].value == text[at[k]] as u32);
            char_u32_cast(text[at[k]], text[at[k]] as u32);
            char_u32_cast(term[k], term[k] as u32);
        }
        assert(is_text_embedding(term, text, at));
    }
    if exists|at: Seq<int>| is_text_embedding(term, text, at) {
        let at = choose|at: Seq<int>| is_text_embedding(term, text, at);
        assert forall|k: int| 0 <= k < term.len() implies cps[#[trigger] at[k]].value
            == term[k] as u32 by {
            assert(cps[at[k]].value == text[at[k]] as u32);
        }
        assert(is_embedding(term, cps, at));
    }
}

/// A match of the subsequence matcher scores between the least and the
/// largest bonus for each query character; the offsets it reports lie
/// within the candidate, increase, and each holds its query character.
pub proof fn lemma_fuzzy_match_bounds(term: Seq<char>, input: Seq<u8>, opts: MatchOptions)
    requires
        fuzzy_model(term, input, opts) is Some,
    ensures
        term.len() * SCORE_MATCH <= fuzzy_model(term, input, opts)->0.score <= term.len()
            * SCORE_MAX,
        opts.match_position <==> fuzzy_model(term, input, opts)->0.matches is Some,
        opts.match_position ==> fuzzy_model(term, input, opts)->0.matches->0.len() == term.len(),
        forall|k: int|
            #![trigger fuzzy_model(term, input, opts)->0.matches->0[k]]
            opts.match_position && 0 <= k < term.len() ==> {
                let at = fuzzy_model(term, input, opts)->0.matches->0;
                &&& 0 <= at[k] < input.len()
                &&& value_at(input, at[k]) == term[k] as u32
                &&& k > 0 ==> at[k - 1] < at[k]
            },
{
    let cps = scan(input);
    lemma_fuzzy_score_bounds(term, cps, term.len() as int);
    lemma_greedy_is_embedding(term, cps);
    lemma_scan_offsets(input, 0);
    let places = greedy_places(term, cps);
    if opts.match_position {
        let at = fuzzy_model(term, input, opts)->0.matches->0;
        assert forall|k: int| 0 <= k < term.len() implies {
            &&& 0 <= #[trigger] at[k] < input.len()
            &&& value_at(input, at[k]) == term[k] as u32
            &&& k > 0 ==> at[k - 1] < at[k]
        } by {
            assert(at[k] == cps[places[k]].offset);
            if k > 0 {
                assert(at[k - 1] == cps[places[k - 1]].offset);
                assert(places[k - 1] < places[k]);
            }
        }
    }
}

/// Where a suffix of a sequence starts with `x`, `x` stands at the cut and
/// the rest follows it.
proof fn lemma_skip_step<A>(s: Seq<A>, n: int, x: A, rest: Seq<A>)
    requires
        0 <= n <= s.len(),
        s.skip(n) == seq![x] + rest,
    ensures
        n < s.len(),
        s[n] == x,
        s.skip(n + 1) == rest,
{
    let t = seq![x] + rest;
    assert(t.len() == 1 + rest.len());
    assert(s.skip(n).len() == s.len() - n);
    assert(s[n] == s.skip(n)[0]);
    assert(t[0] == x);
    assert(s.skip(n + 1) =~= rest) by {
        assert forall|i: int| 0 <= i < rest.len() implies s.skip(n + 1)[i] == rest[i] by {
            assert(s.skip(n + 1)[i] == s.skip(n)[i + 1]);
            assert(t[i + 1] == rest[i]);
        }
    }
}

/// Matches a term as a subsequence of the candidate's code points.
#[derive(Debug)]
pub struct FuzzyMatcher {
    term: Vec<char>,
}

impl View for FuzzyMatcher {
    type V = Seq<char>;

    /// The characters of the term.
    closed spec fn view(&self) -> Seq<char> {
        self.term@
    }
}

impl FuzzyMatcher {
    /// A score must fit the machine's signed word, whatever the candidate.
    #[verifier::type_invariant]
    spec fn fits(self) -> bool {
        self.term@.len() * SCORE_MAX <= isize::MAX
    }

    /// Makes a matcher for the characters of `term`.
    pub fn new(term: &str) -> (r: Self)
        requires
            term@.len() * SCORE_MAX <= isize::MAX,
        ensures
            r@ == term@,
    {
        FuzzyMatcher { term: to_chars(term) }
    }

    /// Makes a matcher for the characters `term`.
    pub fn from_chars(term: Vec<char>) -> (r: Self)
        requires
            term@.len() * SCORE_MAX <= isize::MAX,
        ensures
            r@ == term@,
    {
        FuzzyMatcher { term }
    }
}

impl Matcher for FuzzyMatcher {
    open spec fn match_model(&self, input: Seq<u8>, opts: MatchOptions) -> Option<MatchModel> {
        fuzzy_model(self@, input, opts)
    }

    fn match_term(&self, input: &[u8], opts: MatchOptions) -> (r: Option<MatchResult>)
        ensures
            self@.len() == 0 || input@.len() == 0 ==> r is None,
            r is Some ==> r->0.score > 0 && (r->0.matches is Some <==> opts.match_position),
    {
        proof {
            use_type_invariant(self);
        }
        let term = &self.term;
        let ghost cps = scan(input@);
        if term.len() == 0 || input.len() == 0 {
            proof {
                if term@.len() > 0 {
                    lemma_greedy_bounds(term@, cps, 0);
                    lemma_greedy_stuck(term@, cps, 0, term@.len() - 1);
                }
            }
            return None;
        }
        let mut state = InputState::Beginning;
        let mut total_score: isize = 0;
        let mut matches: Vec<usize> = if opts.match_position {
            vec![0; term.len()]
        } else {
            Vec::new()
        };
        let mut term_index: usize = 0;
        let mut last_match: usize = 0;
        let mut char_index: usize = 0;
        let mut byte_index: usize = 0;
        assert(cps.skip(0) =~= cps);
        while byte_index < input.len()
            invariant
                cps == scan(input@),
                term@ == self@,
                term@.len() * SCORE_MAX <= isize::MAX,
                char_index <= byte_index <= input@.len(),
                char_index <= cps.len(),
                scan_from(input@, byte_index as int) == cps.skip(char_index as int),
                term_index < term@.len(),
                term_index > 0 ==> last_match < char_index && last_match == greedy_pos(
                    term@,
                    cps,
                    term_index - 1,
                ),
                greedy_pos(term@, cps, term_index as int) == first_from(
                    cps,
                    term@[term_index as int] as u32,
                    char_index as int,
                ),
                total_score == fuzzy_score(term@, cps, term_index as int),
                state == state_before(cps, char_index as int),
                opts.match_position ==> matches@.len() == term@.len(),
                opts.match_position ==> forall|k: int|
                    0 <= k < term_index ==> matches@[k] == cps[greedy_pos(term@, cps, k)].offset,
            decreases input@.len() - byte_index,
        {
            let cp = code_point_at(input, byte_index);
            let current = term[term_index];
            proof {
                lemma_skip_step(
                    cps,
                    char_index as int,
                    Scanned { value: value_at(input@, byte_index as int), offset: byte_index as int },
                    scan_from(input@, byte_index + width_at(input@, byte_index as int)),
                );
                lemma_fuzzy_score_bounds(term@, cps, term_index as int);
                lemma_fuzzy_score_bounds(term@, cps, term_index + 1);
            }
            if cp.value == current as u32 {
                let distance = if term_index != 0 {
                    char_index - last_match
                } else {
                    0
                };
                assert(greedy_pos(term@, cps, term_index as int) == char_index);
                assert(fuzzy_score(term@, cps, term_index + 1) == total_score + term_bonus(
                    term@,
                    cps,
                    term_index as int,
                ));
                assert((term_index + 1) * SCORE_MAX <= term@.len() * SCORE_MAX) by (nonlinear_arith)
                    requires
                        term_index + 1 <= term@.len(),
                ;
                total_score += bonus_at(state, current, distance);
                last_match = char_index;
                if opts.match_position {
                    matches.set(term_index, byte_index);
                }
                if term_index + 1 < term.len() {
                    term_index += 1;
                } else {
                    let r = MatchResult {
                        score: total_score,
                        matches: if opts.match_position {
                            Some(matches)
                        } else {
                            None
                        },
                    };
                    proof {
                        if opts.match_position {
                            assert(r@.matches->0 =~= fuzzy_offsets(term@, cps));
                        }
                    }
                    return Some(r);
                }
            }
            state = state_from_value(cp.value);
            char_index += 1;
            byte_index =
            if cp.width >= input.len() - byte_index {
                input.len()
            } else {
                byte_index + cp.width
            };
        }
        proof {
            lemma_greedy_stuck(term@, cps, term_index as int, term@.len() - 1);
        }
        None
    }
}

} // verus!
