//! The positional bonus model shared by both matchers.
//!
//! A matched character earns a bonus that depends on the class of the
//! character before it and on whether the previous query character matched
//! right before it.

use vstd::prelude::*;
use vstd::utf8::is_scalar;
use crate::chars::{char_is_alphanumeric, char_is_whitespace};

verus! {

/// Bonus for a match on the first character of the candidate.
pub const SCORE_BEGINNING: isize = 20;

/// Bonus for a match where the character class changes.
pub const SCORE_BOUNDARY: isize = 10;

/// Bonus for any other match.
pub const SCORE_MATCH: isize = 3;

/// Added when the previous query character matched one code point earlier.
pub const SCORE_CONSECUTIVE: isize = 3;

/// The largest bonus a single matched character can earn.
pub const SCORE_MAX: isize = 23;

/// The class of the character scanned last; it decides the bonus of the next one.
#[derive(Debug, Clone, Copy, PartialEq, Eq, Structural)]
pub enum InputState {
    /// Nothing was scanned yet.
    Beginning,
    /// The last character was alphanumeric.
    InWord,
    /// The last character was whitespace.
    InSpace,
    /// The last character was anything else.
    InSpecial,
}

/// The state after a character that is alphanumeric (`alnum`) or whitespace (`space`).
pub open spec fn state_after(alnum: bool, space: bool) -> InputState {
    if alnum {
        InputState::InWord
    } else if space {
        InputState::InSpace
    } else {
        InputState::InSpecial
    }
}

/// The state after the character `c`.
pub open spec fn state_of_char(c: char) -> InputState {
    state_after(char_is_alphanumeric(c), char_is_whitespace(c))
}

/// The state after a scanned value. A value that is no Unicode scalar value
/// is neither alphanumeric nor whitespace.
pub open spec fn state_of_value(v: u32) -> InputState {
    if is_scalar(v) {
        state_of_char(v as char)
    } else {
        InputState::InSpecial
    }
}

/// The bonus of a match in state `state` on a character that is
/// alphanumeric or not (`alnum`), `distance` code points after the previous
/// match.
pub open spec fn bonus_of(state: InputState, alnum: bool, distance: int) -> int {
    let base: int = match state {
        InputState::Beginning => SCORE_BEGINNING as int,
        InputState::InSpace => SCORE_BOUNDARY as int,
        InputState::InSpecial => if alnum {
            SCORE_BOUNDARY as int
        } else {
            SCORE_MATCH as int
        },
        InputState::InWord => if !alnum {
            SCORE_BOUNDARY as int
        } else {
            SCORE_MATCH as int
        },
    };
    if distance == 1 {
        base + SCORE_CONSECUTIVE
    } else {
        base
    }
}

/// Every bonus lies between `SCORE_MATCH` and `SCORE_MAX`.
pub proof fn lemma_bonus_bounds(state: InputState, alnum: bool, distance: int)
    ensures
        SCORE_MATCH <= bonus_of(state, alnum, distance) <= SCORE_MAX,
        distance != 1 ==> bonus_of(state, alnum, distance) <= SCORE_BEGINNING,
{
}

/// Classifies a character from what is known of it.
pub fn classify(alnum: bool, space: bool) -> (r: InputState)
    ensures
        r == state_after(alnum, space),
{
    if alnum {
        InputState::InWord
    } else if space {
        InputState::InSpace
    } else {
        InputState::InSpecial
    }
}

/// Computes the bonus of a match from the state before it, from whether
/// the matched character is alphanumeric, and from the distance to the
/// previous match. A distance of 0 stands for "no previous match".
pub fn bonus(state: InputState, alnum: bool, distance: usize) -> (r: isize)
    ensures
        r == bonus_of(state, alnum, distance as int),
{
    let mut score = match state {
        InputState::Beginning => SCORE_BEGINNING,
        InputState::InSpace => SCORE_BOUNDARY,
        InputState::InSpecial => if alnum {
            SCORE_BOUNDARY
        } else {
            SCORE_MATCH
        },
        InputState::InWord => if !alnum {
            SCORE_BOUNDARY
        } else {
            SCORE_MATCH
        },
    };
    if distance == 1 {
        score += SCORE_CONSECUTIVE;
    }
    score
}

/// The state after the character `c`.
pub fn state_from_char(c: char) -> (r: InputState)
    ensures
        r == state_of_char(c),
{
    classify(c.is_alphanumeric(), c.is_whitespace())
}

/// The state after a scanned value, which need not be a character.
pub fn state_from_value(v: u32) -> (r: InputState)
    ensures
        r == state_of_value(v),
{
    match char::from_u32(v) {
        Some(c) => state_from_char(c),
        None => InputState::InSpecial,
    }
}

/// The bonus of a match on the character `c` in state `state`, `distance`
/// code points after the previous match.
pub fn bonus_at(state: InputState, c: char, distance: usize) -> (r: isize)
    ensures
        r == bonus_of(state, char_is_alphanumeric(c), distance as int),
{
    bonus(state, c.is_alphanumeric(), distance)
}

} // verus!
