use fuzzyrs::scoring::{
    bonus, bonus_at, classify, state_from_char, state_from_value, InputState, SCORE_BEGINNING,
    SCORE_BOUNDARY, SCORE_CONSECUTIVE, SCORE_MATCH, SCORE_MAX,
};

#[test]
fn scoring_constants() {
    assert_eq!(SCORE_BEGINNING, 20);
    assert_eq!(SCORE_BOUNDARY, 10);
    assert_eq!(SCORE_MATCH, 3);
    assert_eq!(SCORE_CONSECUTIVE, 3);
    assert_eq!(SCORE_MAX, SCORE_BEGINNING + SCORE_CONSECUTIVE);
}

#[test]
fn bonus_table() {
    for alnum in [false, true] {
        assert_eq!(bonus(InputState::Beginning, alnum, 0), 20);
        assert_eq!(bonus(InputState::InSpace, alnum, 0), 10);
    }
    assert_eq!(bonus(InputState::InSpecial, true, 0), 10);
    assert_eq!(bonus(InputState::InSpecial, false, 0), 3);
    assert_eq!(bonus(InputState::InWord, false, 0), 10);
    assert_eq!(bonus(InputState::InWord, true, 0), 3);
}

#[test]
fn consecutive_bonus_needs_distance_one() {
    assert_eq!(bonus(InputState::InWord, true, 1), 6);
    assert_eq!(bonus(InputState::InWord, false, 1), 13);
    assert_eq!(bonus(InputState::InSpace, true, 1), 13);
    assert_eq!(bonus(InputState::InSpecial, false, 1), 6);
    assert_eq!(bonus(InputState::Beginning, true, 1), 23);
    assert_eq!(bonus(InputState::InWord, true, 2), 3);
    assert_eq!(bonus(InputState::InWord, true, usize::MAX), 3);
}

#[test]
fn classes_from_flags() {
    assert_eq!(classify(true, false), InputState::InWord);
    assert_eq!(classify(true, true), InputState::InWord);
    assert_eq!(classify(false, true), InputState::InSpace);
    assert_eq!(classify(false, false), InputState::InSpecial);
}

#[test]
fn classes_of_characters() {
    assert_eq!(state_from_char('a'), InputState::InWord);
    assert_eq!(state_from_char('Z'), InputState::InWord);
    assert_eq!(state_from_char('7'), InputState::InWord);
    assert_eq!(state_from_char('é'), InputState::InWord);
    assert_eq!(state_from_char(' '), InputState::InSpace);
    assert_eq!(state_from_char('\t'), InputState::InSpace);
    assert_eq!(state_from_char('\n'), InputState::InSpace);
    assert_eq!(state_from_char('\u{a0}'), InputState::InSpace);
    assert_eq!(state_from_char('-'), InputState::InSpecial);
    assert_eq!(state_from_char('/'), InputState::InSpecial);
    assert_eq!(state_from_char('\u{fffd}'), InputState::InSpecial);
}

#[test]
fn classes_of_scanned_values() {
    assert_eq!(state_from_value(0x41), InputState::InWord);
    assert_eq!(state_from_value(0x20), InputState::InSpace);
    assert_eq!(state_from_value(0x2E), InputState::InSpecial);
    assert_eq!(state_from_value(0x63F), state_from_char('\u{63f}'));
    // Surrogates and values past the last scalar value are no characters.
    assert_eq!(state_from_value(0xD800), InputState::InSpecial);
    assert_eq!(state_from_value(0xDFFF), InputState::InSpecial);
    assert_eq!(state_from_value(0x110000), InputState::InSpecial);
    assert_eq!(state_from_value(0x1FFFFF), InputState::InSpecial);
    assert_eq!(state_from_value(u32::MAX), InputState::InSpecial);
}

#[test]
fn bonus_of_a_character() {
    assert_eq!(bonus_at(InputState::Beginning, 'A', 0), 20);
    assert_eq!(bonus_at(InputState::InSpace, '-', 0), 10);
    assert_eq!(bonus_at(InputState::InSpecial, 'A', 0), 10);
    assert_eq!(bonus_at(InputState::InSpecial, '-', 0), 3);
    assert_eq!(bonus_at(InputState::InWord, '-', 0), 10);
    assert_eq!(bonus_at(InputState::InWord, ' ', 0), 10);
    assert_eq!(bonus_at(InputState::InWord, 'A', 0), 3);
    assert_eq!(bonus_at(InputState::InWord, 'A', 1), 6);
    assert_eq!(bonus_at(InputState::InWord, 'é', 5), 3);
}
