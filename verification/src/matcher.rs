//! What every matcher takes and gives: options, results, and the capability
//! of matching one term against one candidate.

use vstd::prelude::*;

verus! {

/// How a candidate is to be matched.
#[derive(Debug, Clone, Copy)]
pub struct MatchOptions {
    /// Accepted and carried along; no matcher looks at it.
    pub case_sensitive: bool,
    /// Whether the byte offsets of the matched characters are reported.
    pub match_position: bool,
}

impl Default for MatchOptions {
    fn default() -> (r: Self)
        ensures
            !r.case_sensitive,
            !r.match_position,
    {
        MatchOptions { case_sensitive: false, match_position: false }
    }
}

/// The outcome of matching one term against one candidate.
#[derive(Debug)]
pub struct MatchResult {
    /// One byte offset per query character, where positions were asked for.
    pub matches: Option<Vec<usize>>,
    /// How well the term matched; never negative.
    pub score: isize,
}

/// A match result as a mathematical value.
pub struct MatchModel {
    pub score: int,
    pub matches: Option<Seq<int>>,
}

impl View for MatchResult {
    type V = MatchModel;

    open spec fn view(&self) -> MatchModel {
        MatchModel {
            score: self.score as int,
            matches: match self.matches {
                Some(v) => Some(Seq::new(v@.len(), |i: int| v@[i] as int)),
                None => None,
            },
        }
    }
}

/// The model of an optional match result.
pub open spec fn outcome(r: Option<MatchResult>) -> Option<MatchModel> {
    match r {
        Some(m) => Some(m@),
        None => None,
    }
}

/// Something that can match one term against a candidate.
pub trait Matcher {
    /// What `match_term` returns for a candidate, as a mathematical value.
    spec fn match_model(&self, input: Seq<u8>, opts: MatchOptions) -> Option<MatchModel>;

    /// Matches the term against `input`. Returns `None` where the term does
    /// not match, and otherwise the score, with the byte offsets of the
    /// matched characters where `opts.match_position` is set.
    fn match_term(&self, input: &[u8], opts: MatchOptions) -> (r: Option<MatchResult>)
        ensures
            outcome(r) == self.match_model(input@, opts),
    ;
}

} // verus!
