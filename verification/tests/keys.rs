use kdnlp::keys::{key_press_action, key_to_char, KeyAction, PressedKey, ReleasedKey};

#[test]
fn named_keys_act_as_such() {
    assert_eq!(key_press_action(PressedKey::Backspace, None, 14), KeyAction::Backspace);
    assert_eq!(key_press_action(PressedKey::Enter, Some('\r'), 28), KeyAction::Submit);
}

#[test]
fn typed_characters_are_lower_cased() {
    assert_eq!(key_press_action(PressedKey::Other, Some('A'), 30), KeyAction::Char('a', 30));
    assert_eq!(key_press_action(PressedKey::Other, Some('z'), 44), KeyAction::Char('z', 44));
    assert_eq!(key_press_action(PressedKey::Other, Some('É'), 0), KeyAction::Char('É', 0));
    assert_eq!(key_press_action(PressedKey::Other, Some(' '), 57), KeyAction::Char(' ', 57));
}

#[test]
fn control_characters_and_silent_keys_are_ignored() {
    assert_eq!(key_press_action(PressedKey::Other, Some('\t'), 15), KeyAction::Ignore);
    assert_eq!(key_press_action(PressedKey::Other, Some('\u{7f}'), 0), KeyAction::Ignore);
    assert_eq!(key_press_action(PressedKey::Other, Some('\u{85}'), 0), KeyAction::Ignore);
    assert_eq!(key_press_action(PressedKey::Other, None, 42), KeyAction::Ignore);
    assert_eq!(key_press_action(PressedKey::Other, Some('\u{a0}'), 0), KeyAction::Char('\u{a0}', 0));
}

#[test]
fn released_keys_map_to_characters() {
    assert_eq!(key_to_char(ReleasedKey::Character(Some('Q'))), Some('q'));
    assert_eq!(key_to_char(ReleasedKey::Character(None)), None);
    assert_eq!(key_to_char(ReleasedKey::Space), Some(' '));
    assert_eq!(key_to_char(ReleasedKey::Backspace), Some('\x08'));
    assert_eq!(key_to_char(ReleasedKey::Other), None);
}
