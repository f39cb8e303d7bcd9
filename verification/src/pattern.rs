//! Patterns of several terms.
//!
//! A query is split on whitespace into terms. A term that starts with an
//! apostrophe is matched as a contiguous run, without the apostrophe; every
//! other term is matched as a subsequence. A candidate matches the pattern
//! when every term matches it.

use vstd::prelude::*;
use crate::chars::{char_is_whitespace, to_chars};
use crate::exact::{exact_model, lemma_exact_matches_iff_occurs, occurs, ExactMatcher};
use crate::fuzzy::{
    fuzzy_model, is_subsequence, lemma_fuzzy_matches_iff_subsequence, lemma_greedy_bounds,
    FuzzyMatcher,
};
use crate::matcher::{MatchModel, MatchOptions, MatchResult, Matcher};
use crate::scoring::SCORE_MAX;
use crate::unicode::scan;

verus! {

/// The character that marks a term to be matched as a contiguous run.
pub const EXACT_MARKER: char = '\'';

/// A term as a mathematical value: how it is matched, and its characters.
pub enum TermModel {
    Fuzzy(Seq<char>),
    Exact(Seq<char>),
}

/// The run of characters at the end of `s` that holds no whitespace.
pub open spec fn open_word(s: Seq<char>) -> Seq<char>
    decreases s.len(),
{
    if s.len() == 0 || char_is_whitespace(s.last()) {
        Seq::empty()
    } else {
        open_word(s.drop_last()).push(s.last())
    }
}

/// The words of `s` that whitespace has ended, in order.
pub open spec fn finished_words(s: Seq<char>) -> Seq<Seq<char>>
    decreases s.len(),
{
    if s.len() == 0 {
        Seq::empty()
    } else if char_is_whitespace(s.last()) && open_word(s.drop_last()).len() > 0 {
        finished_words(s.drop_last()).push(open_word(s.drop_last()))
    } else {
        finished_words(s.drop_last())
    }
}

/// The words of `s`: its maximal runs of characters that are not
/// whitespace, in order.
pub open spec fn words(s: Seq<char>) -> Seq<Seq<char>> {
    if open_word(s).len() > 0 {
        finished_words(s).push(open_word(s))
    } else {
        finished_words(s)
    }
}

/// The term that a word of the query stands for.
pub open spec fn term_of(word: Seq<char>) -> TermModel {
    if word.len() > 0 && word[0] == EXACT_MARKER {
        TermModel::Exact(word.skip(1))
    } else {
        TermModel::Fuzzy(word)
    }
}

/// The terms of a query, in the order in which it names them.
pub open spec fn terms_of(query: Seq<char>) -> Seq<TermModel> {
    Seq::new(words(query).len(), |k: int| term_of(words(query)[k]))
}

/// What matching one term against a candidate gives.
pub open spec fn term_model(term: TermModel, input: Seq<u8>, opts: MatchOptions) -> Option<
    MatchModel,
> {
    match term {
        TermModel::Fuzzy(t) => fuzzy_model(t, input, opts),
        TermModel::Exact(t) => exact_model(t, input, opts),
    }
}

/// Whether every term matches the candidate.
pub open spec fn all_match(terms: Seq<TermModel>, input: Seq<u8>, opts: MatchOptions) -> bool {
    forall|k: int| 0 <= k < terms.len() ==> (#[trigger] term_model(terms[k], input, opts)) is Some
}

/// What matching a pattern against a candidate gives: the results of its
/// terms in their order where all of them match, and nothing otherwise.
pub open spec fn pattern_model(terms: Seq<TermModel>, input: Seq<u8>, opts: MatchOptions) -> Option<
    Seq<MatchModel>,
> {
    if all_match(terms, input, opts) {
        Some(Seq::new(terms.len(), |k: int| term_model(terms[k], input, opts)->0))
    } else {
        None
    }
}

/// The models of a list of results.
pub open spec fn outcomes(r: Option<Vec<MatchResult>>) -> Option<Seq<MatchModel>> {
    match r {
        Some(v) => Some(Seq::new(v@.len(), |k: int| v@[k]@)),
        None => None,
    }
}

/// The trailing run of a string is no longer than the string.
pub proof fn lemma_open_word_len(s: Seq<char>)
    ensures
        open_word(s).len() <= s.len(),
    decreases s.len(),
{
    if s.len() > 0 && !char_is_whitespace(s.last()) {
        lemma_open_word_len(s.drop_last());
    }
}

/// The characters of a term.
pub open spec fn term_chars(term: TermModel) -> Seq<char> {
    match term {
        TermModel::Fuzzy(t) => t,
        TermModel::Exact(t) => t,
    }
}

/// Whether a term is found in a candidate, said without the matchers: a
/// term is never empty; a fuzzy term's characters occur among the
/// candidate's code points in order, and an exact term stands in the
/// candidate as one run.
pub open spec fn term_found(term: TermModel, input: Seq<u8>) -> bool {
    match term {
        TermModel::Fuzzy(t) => t.len() > 0 && is_subsequence(t, scan(input)),
        TermModel::Exact(t) => t.len() > 0 && occurs(t, input),
    }
}

/// An empty term matches no candidate, and no term matches the empty
/// candidate, whatever the kind of the term.
pub proof fn lemma_empty_never_matches(term: TermModel, input: Seq<u8>, opts: MatchOptions)
    requires
        term_chars(term).len() == 0 || input.len() == 0,
    ensures
        term_model(term, input, opts) is None,
{
    match term {
        TermModel::Fuzzy(t) => {
            if t.len() > 0 {
                lemma_greedy_bounds(t, scan(input), t.len() - 1);
            }
        },
        TermModel::Exact(t) => {},
    }
}

/// A term matches a candidate exactly where it is found in it.
pub proof fn lemma_term_matches_iff_found(term: TermModel, input: Seq<u8>, opts: MatchOptions)
    ensures
        term_model(term, input, opts) is Some <==> term_found(term, input),
{
    match term {
        TermModel::Fuzzy(t) => {
            lemma_fuzzy_matches_iff_subsequence(t, input, opts);
        },
        TermModel::Exact(t) => {
            lemma_exact_matches_iff_occurs(t, input, opts);
        },
    }
}

/// A pattern matches a candidate exactly where every one of its terms is
/// found in that candidate.
pub proof fn lemma_pattern_matches_iff_all_found(
    terms: Seq<TermModel>,
    input: Seq<u8>,
    opts: MatchOptions,
)
    ensures
        pattern_model(terms, input, opts) is Some <==> forall|k: int|
            0 <= k < terms.len() ==> term_found(#[trigger] terms[k], input),
{
    assert forall|k: int| 0 <= k < terms.len() implies (term_model(terms[k], input, opts) is Some
        <==> term_found(terms[k], input)) by {
        lemma_term_matches_iff_found(terms[k], input, opts);
    }
    if forall|k: int| 0 <= k < terms.len() ==> term_found(#[trigger] terms[k], input) {
        assert(all_match(terms, input, opts));
    }
}

/// No matcher looks at `case_sensitive`: options that agree on
/// `match_position` give the same result.
pub proof fn lemma_case_sensitive_is_ignored(
    terms: Seq<TermModel>,
    input: Seq<u8>,
    a: MatchOptions,
    b: MatchOptions,
)
    requires
        a.match_position == b.match_position,
    ensures
        pattern_model(terms, input, a) == pattern_model(terms, input, b),
        forall|k: int|
            0 <= k < terms.len() ==> term_model(#[trigger] terms[k], input, a) == term_model(
                terms[k],
                input,
                b,
            ),
{
    assert(all_match(terms, input, a) <==> all_match(terms, input, b)) by {
        if all_match(terms, input, a) {
            assert forall|k: int| 0 <= k < terms.len() implies (#[trigger] term_model(
                terms[k],
                input,
                b,
            )) is Some by {
                assert(term_model(terms[k], input, a) is Some);
            }
        }
        if all_match(terms, input, b) {
            assert forall|k: int| 0 <= k < terms.len() implies (#[trigger] term_model(
                terms[k],
                input,
                a,
            )) is Some by {
                assert(term_model(terms[k], input, b) is Some);
            }
        }
    }
    if all_match(terms, input, a) {
        assert(pattern_model(terms, input, a)->0 =~= pattern_model(terms, input, b)->0);
    }
}

/// One term that does not match is enough for the pattern not to match.
pub proof fn lemma_pattern_fails_with_a_term(
    terms: Seq<TermModel>,
    input: Seq<u8>,
    opts: MatchOptions,
    k: int,
)
    requires
        0 <= k < terms.len(),
        term_model(terms[k], input, opts) is None,
    ensures
        pattern_model(terms, input, opts) is None,
{
}

/// Where a pattern matches, it gives one result for each term, in the
/// order of the terms, and each is what its term gives alone.
pub proof fn lemma_pattern_results(terms: Seq<TermModel>, input: Seq<u8>, opts: MatchOptions)
    requires
        pattern_model(terms, input, opts) is Some,
    ensures
        pattern_model(terms, input, opts)->0.len() == terms.len(),
        forall|k: int|
            0 <= k < terms.len() ==> term_model(#[trigger] terms[k], input, opts) == Some(
                pattern_model(terms, input, opts)->0[k],
            ),
{
    assert forall|k: int| 0 <= k < terms.len() implies term_model(
        #[trigger] terms[k],
        input,
        opts,
    ) == Some(pattern_model(terms, input, opts)->0[k]) by {
        assert(term_model(terms[k], input, opts) is Some);
    }
}

/// No word of a query is empty, and none holds whitespace.
pub proof fn lemma_words_hold_no_whitespace(s: Seq<char>)
    ensures
        forall|k: int, m: int|
            0 <= k < words(s).len() && 0 <= m < words(s)[k].len() ==> !char_is_whitespace(
                #[trigger] words(s)[k][m],
            ),
        forall|k: int| 0 <= k < words(s).len() ==> (#[trigger] words(s)[k]).len() > 0,
{
    lemma_finished_words(s);
    lemma_open_word(s);
}

/// A string that is not empty and holds no whitespace is its own single word.
pub proof fn lemma_words_of_a_word(s: Seq<char>)
    requires
        s.len() > 0,
        forall|m: int| 0 <= m < s.len() ==> !char_is_whitespace(#[trigger] s[m]),
    ensures
        words(s) == seq![s],
{
    lemma_plain_run(s);
    assert(words(s) =~= seq![s]);
}

/// A string without whitespace is one open run, and no word of it is finished.
proof fn lemma_plain_run(s: Seq<char>)
    requires
        forall|m: int| 0 <= m < s.len() ==> !char_is_whitespace(#[trigger] s[m]),
    ensures
        open_word(s) == s,
        finished_words(s).len() == 0,
    decreases s.len(),
{
    if s.len() > 0 {
        let before = s.drop_last();
        assert forall|m: int| 0 <= m < before.len() implies !char_is_whitespace(
            #[trigger] before[m],
        ) by {
            assert(before[m] == s[m]);
        }
        lemma_plain_run(before);
        assert(s.last() == s[s.len() - 1]);
        assert(before.push(s.last()) =~= s);
    }
}

/// The words of two strings joined by a whitespace character are the words
/// of the first followed by the words of the second.
pub proof fn lemma_words_split(a: Seq<char>, space: char, b: Seq<char>)
    requires
        char_is_whitespace(space),
    ensures
        words(a + seq![space] + b) == words(a) + words(b),
{
    lemma_runs_split(a, space, b);
    let joined = a + seq![space] + b;
    if open_word(b).len() > 0 {
        assert(words(joined) =~= words(a) + words(b));
    }
}

/// Behind a whitespace character the open run and the finished words go
/// on as if the string began there.
proof fn lemma_runs_split(a: Seq<char>, space: char, b: Seq<char>)
    requires
        char_is_whitespace(space),
    ensures
        open_word(a + seq![space] + b) == open_word(b),
        finished_words(a + seq![space] + b) == words(a) + finished_words(b),
    decreases b.len(),
{
    let joined = a + seq![space] + b;
    if b.len() == 0 {
        assert(joined.drop_last() =~= a);
        assert(joined.last() == space);
        assert(finished_words(joined) =~= words(a) + finished_words(b));
    } else {
        let before = a + seq![space] + b.drop_last();
        assert(joined.drop_last() =~= before);
        assert(joined.last() == b.last());
        lemma_runs_split(a, space, b.drop_last());
        assert(finished_words(joined) =~= words(a) + finished_words(b));
    }
}

/// The trailing run of a string holds no whitespace.
proof fn lemma_open_word(s: Seq<char>)
    ensures
        forall|m: int| 0 <= m < open_word(s).len() ==> !char_is_whitespace(#[trigger] open_word(s)[m]),
    decreases s.len(),
{
    if s.len() > 0 && !char_is_whitespace(s.last()) {
        lemma_open_word(s.drop_last());
        let before = open_word(s.drop_last());
        assert forall|m: int| 0 <= m < open_word(s).len() implies !char_is_whitespace(
            #[trigger] open_word(s)[m],
        ) by {
            if m < before.len() {
                assert(open_word(s)[m] == before[m]);
            }
        }
    }
}

/// No finished word is empty, and none holds whitespace.
proof fn lemma_finished_words(s: Seq<char>)
    ensures
        forall|k: int, m: int|
            0 <= k < finished_words(s).len() && 0 <= m < finished_words(s)[k].len()
                ==> !char_is_whitespace(#[trigger] finished_words(s)[k][m]),
        forall|k: int| 0 <= k < finished_words(s).len() ==> (#[trigger] finished_words(s)[k]).len() > 0,
    decreases s.len(),
{
    if s.len() > 0 {
        lemma_finished_words(s.drop_last());
        lemma_open_word(s.drop_last());
        let before = finished_words(s.drop_last());
        let all = finished_words(s);
        assert forall|k: int| 0 <= k < all.len() implies (#[trigger] all[k]).len() > 0 && (forall|
            m: int,
        |
            0 <= m < all[k].len() ==> !char_is_whitespace(#[trigger] all[k][m])) by {
            if k < before.len() {
                assert(all[k] == before[k]);
            }
        }
    }
}

/// One term of a pattern with its matcher.
#[derive(Debug)]
pub enum TermMatcher {
    Fuzzy(FuzzyMatcher),
    Exact(ExactMatcher),
}

impl View for TermMatcher {
    type V = TermModel;

    open spec fn view(&self) -> TermModel {
        match self {
            TermMatcher::Fuzzy(m) => TermModel::Fuzzy(m@),
            TermMatcher::Exact(m) => TermModel::Exact(m@),
        }
    }
}

impl Matcher for TermMatcher {
    open spec fn match_model(&self, input: Seq<u8>, opts: MatchOptions) -> Option<MatchModel> {
        term_model(self@, input, opts)
    }

    fn match_term(&self, input: &[u8], opts: MatchOptions) -> (r: Option<MatchResult>)
        ensures
            term_chars(self@).len() == 0 || input@.len() == 0 ==> r is None,
            r is Some ==> r->0.score > 0 && (r->0.matches is Some <==> opts.match_position),
    {
        match self {
            TermMatcher::Fuzzy(m) => m.match_term(input, opts),
            TermMatcher::Exact(m) => m.match_term(input, opts),
        }
    }
}

/// The models of a list of term matchers.
pub open spec fn term_models(terms: Seq<TermMatcher>) -> Seq<TermModel> {
    Seq::new(terms.len(), |k: int| terms[k]@)
}

/// Makes the matcher of one word of a query, given as its characters.
pub fn term_from_chars(word: Vec<char>) -> (r: TermMatcher)
    requires
        word@.len() * SCORE_MAX <= isize::MAX,
    ensures
        r@ == term_of(word@),
{
    let mut word = word;
    if word.len() > 0 && word[0] == EXACT_MARKER {
        let ghost all = word@;
        word.remove(0);
        assert(word@ =~= all.skip(1));
        TermMatcher::Exact(ExactMatcher::from_chars(word))
    } else {
        TermMatcher::Fuzzy(FuzzyMatcher::from_chars(word))
    }
}

/// Makes the matcher of one word of a query. The word is not empty.
pub fn parse_term(term: &str) -> (r: TermMatcher)
    requires
        term@.len() > 0,
        term@.len() * SCORE_MAX <= isize::MAX,
    ensures
        r@ == term_of(term@),
{
    term_from_chars(to_chars(term))
}

/// Splits a query on whitespace and makes the matcher of each word.
pub fn parse_terms(input: &str) -> (r: Vec<TermMatcher>)
    requires
        input@.len() * SCORE_MAX <= isize::MAX,
    ensures
        term_models(r@) == terms_of(input@),
{
    let chars = to_chars(input);
    let mut terms: Vec<TermMatcher> = Vec::new();
    let mut word: Vec<char> = Vec::new();
    let mut i: usize = 0;
    assert(chars@.take(0) =~= Seq::<char>::empty());
    while i < chars.len()
        invariant
            i <= chars@.len(),
            chars@.len() * SCORE_MAX <= isize::MAX,
            word@ == open_word(chars@.take(i as int)),
            terms@.len() == finished_words(chars@.take(i as int)).len(),
            forall|k: int|
                0 <= k < terms@.len() ==> (#[trigger] terms@[k])@ == term_of(
                    finished_words(chars@.take(i as int))[k],
                ),
        decreases chars@.len() - i,
    {
        let c = chars[i];
        proof {
            let next = chars@.take(i + 1);
            assert(next.drop_last() =~= chars@.take(i as int));
            assert(next.last() == c);
            lemma_open_word_len(chars@.take(i as int));
        }
        if c.is_whitespace() {
            if word.len() > 0 {
                let t = term_from_chars(word);
                terms.push(t);
                word = Vec::new();
            }
        } else {
            word.push(c);
        }
        i += 1;
    }
    assert(chars@.take(i as int) =~= chars@);
    if word.len() > 0 {
        proof {
            lemma_open_word_len(chars@);
        }
        let t = term_from_chars(word);
        terms.push(t);
    }
    assert(term_models(terms@) =~= terms_of(input@));
    terms
}

/// A query: its terms in order, and the options under which every term is
/// matched.
#[derive(Debug)]
pub struct Pattern {
    terms: Vec<TermMatcher>,
    opts: MatchOptions,
}

impl Pattern {
    /// The terms of the pattern, in order.
    pub closed spec fn terms(&self) -> Seq<TermModel> {
        term_models(self.terms@)
    }

    /// The options under which the terms are matched.
    pub closed spec fn options(&self) -> MatchOptions {
        self.opts
    }

    /// What `matches` returns for a candidate, as a mathematical value.
    pub open spec fn matches_model(&self, input: Seq<u8>) -> Option<Seq<MatchModel>> {
        pattern_model(self.terms(), input, self.options())
    }

    /// Matching is a function of the pattern and the candidate: patterns
    /// with the same terms and the same options give the same result for
    /// the same candidate, every time.
    pub proof fn lemma_same_pattern_same_result(self, other: Pattern, input: Seq<u8>)
        requires
            self.terms() == other.terms(),
            self.options() == other.options(),
        ensures
            self.matches_model(input) == other.matches_model(input),
    {
    }

    /// Parses a query into a pattern.
    pub fn new(input: &str, opts: MatchOptions) -> (p: Pattern)
        requires
            input@.len() * SCORE_MAX <= isize::MAX,
        ensures
            p.terms() == terms_of(input@),
            p.options() == opts,
    {
        Pattern { opts, terms: parse_terms(input) }
    }

    /// Matches every term against the same candidate. Returns the results
    /// of the terms in their order where all of them match, and `None` as
    /// soon as one does not.
    pub fn matches(&self, input: &[u8]) -> (r: Option<Vec<MatchResult>>)
        ensures
            outcomes(r) == self.matches_model(input@),
            r is Some <==> all_match(self.terms(), input@, self.options()),
            r is Some ==> r->0@.len() == self.terms().len(),
    {
        let mut results: Vec<MatchResult> = Vec::new();
        let mut k: usize = 0;
        while k < self.terms.len()
            invariant
                k <= self.terms@.len(),
                results@.len() == k,
                forall|q: int|
                    0 <= q < k ==> term_model(
                        #[trigger] self.terms()[q],
                        input@,
                        self.options(),
                    ) == Some(results@[q]@),
            decreases self.terms@.len() - k,
        {
            match self.terms[k].match_term(input, self.opts) {
                Some(m) => {
                    results.push(m);
                },
                None => {
                    assert(term_model(self.terms()[k as int], input@, self.options()) is None);
                    return None;
                },
            }
            k += 1;
        }
        let r = Some(results);
        assert(outcomes(r)->0 =~= self.matches_model(input@)->0);
        r
    }
}

} // verus!
