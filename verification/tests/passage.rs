use kdnlp::passage::{char_state, cursor_position, glyph, CharState};

#[test]
fn characters_are_correct_wrong_or_untyped() {
    let passage: Vec<char> = "the cat".chars().collect();
    let typed: Vec<char> = "thx".chars().collect();
    assert_eq!(char_state(&passage, &typed, 0), CharState::Correct);
    assert_eq!(char_state(&passage, &typed, 1), CharState::Correct);
    assert_eq!(char_state(&passage, &typed, 2), CharState::Wrong);
    assert_eq!(char_state(&passage, &typed, 3), CharState::Untyped);
    assert_eq!(char_state(&passage, &typed, 6), CharState::Untyped);
}

#[test]
fn typed_text_longer_than_the_prompt_is_still_compared() {
    let passage: Vec<char> = "ab".chars().collect();
    let typed: Vec<char> = "abcd".chars().collect();
    assert_eq!(char_state(&passage, &typed, 1), CharState::Correct);
}

#[test]
fn only_wrong_spaces_are_drawn() {
    assert_eq!(glyph(' ', CharState::Wrong), Some('·'));
    assert_eq!(glyph(' ', CharState::Correct), None);
    assert_eq!(glyph(' ', CharState::Untyped), None);
    assert_eq!(glyph('a', CharState::Wrong), Some('a'));
    assert_eq!(glyph('a', CharState::Untyped), Some('a'));
}

#[test]
fn cursor_follows_the_text_and_stops_at_the_end() {
    assert_eq!(cursor_position(5, 0), Some(0));
    assert_eq!(cursor_position(5, 3), Some(3));
    assert_eq!(cursor_position(5, 5), Some(5));
    assert_eq!(cursor_position(5, 9), Some(5));
    assert_eq!(cursor_position(0, 0), None);
    assert_eq!(cursor_position(0, 2), None);
}
