use kdnlp::store::{default_session_count, restored_char_count, restored_interval_count};
use kdnlp::typing::KeyEvent;

fn ev(key: char) -> KeyEvent {
    KeyEvent { key, keycode: 0, press_ms: 0, release_ms: None }
}

#[test]
fn a_profile_counts_one_session_by_default() {
    assert_eq!(default_session_count(), 1);
}

#[test]
fn char_count_falls_back_to_non_backspace_events() {
    let events = vec![ev('a'), ev('b'), ev('\x08'), ev('c')];
    assert_eq!(restored_char_count(0, &events), 3);
    assert_eq!(restored_char_count(7, &events), 7);
    assert_eq!(restored_char_count(0, &Vec::new()), 0);
}

#[test]
fn interval_count_falls_back_to_bigram_count() {
    assert_eq!(restored_interval_count(0, 12), 12);
    assert_eq!(restored_interval_count(40, 12), 40);
}
