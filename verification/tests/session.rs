use kdnlp::typing::{display_char, KeyEvent, Session};

const MS: u64 = 1_000_000;
const START: u64 = 5_000 * MS;

fn press(s: &mut Session, ch: char, at_ms: u64) {
    s.push_char(ch, ch as u32, START + at_ms * MS);
    s.text.push(ch);
}

#[test]
fn display_char_shows_space_as_dot() {
    assert_eq!(display_char(' '), '·');
    assert_eq!(display_char('a'), 'a');
    assert_eq!(display_char('·'), '·');
}

#[test]
fn new_session_is_empty() {
    let s = Session::new(START);
    assert!(s.is_empty());
    assert_eq!(s.interval_count(), 0);
    assert_eq!(s.unique_bigram_count(), 0);
    assert_eq!(s.elapsed_ms(), 0);
    assert_eq!(s.char_count(), 0);
    assert!(s.events.is_empty());
}

#[test]
fn presses_log_press_to_press_intervals() {
    let mut s = Session::new(START);
    press(&mut s, 'a', 100);
    assert!(s.is_empty());
    press(&mut s, 'b', 250);
    assert_eq!(s.log, vec![(('a', 'b'), 150 * MS as i128)]);
    assert_eq!(s.bigrams, vec![(('a', 'b'), vec![150 * MS as i128])]);
    assert_eq!(s.events.len(), 2);
    assert_eq!(s.events[0].press_ms, 100);
    assert_eq!(s.events[1].press_ms, 250);
    assert_eq!(s.events[1].key, 'b');
    assert_eq!(s.events[1].keycode, 'b' as u32);
    assert_eq!(s.events[1].release_ms, None);
    assert_eq!(s.interval_count(), 1);
    assert!(!s.is_empty());
}

#[test]
fn release_of_first_key_turns_interval_into_flight() {
    let mut s = Session::new(START);
    press(&mut s, 'a', 100);
    press(&mut s, 'b', 250);
    s.push_release('a', START + 200 * MS);
    assert_eq!(s.events[0].release_ms, Some(200));
    assert_eq!(s.log, vec![(('a', 'b'), 50 * MS as i128)]);
    assert_eq!(s.bigrams[0].1, vec![50 * MS as i128]);
    // the flight is measured once only
    s.push_release('a', START + 230 * MS);
    assert_eq!(s.log, vec![(('a', 'b'), 50 * MS as i128)]);
}

#[test]
fn overlapping_keys_give_negative_flight() {
    let mut s = Session::new(START);
    press(&mut s, 't', 0);
    press(&mut s, 'h', 80);
    s.push_release('t', START + 120 * MS);
    assert_eq!(s.log[0].1, -(40 * MS as i128));
}

#[test]
fn release_of_other_key_keeps_interval() {
    let mut s = Session::new(START);
    press(&mut s, 'a', 0);
    press(&mut s, 'b', 100);
    s.push_release('b', START + 150 * MS);
    assert_eq!(s.events[1].release_ms, Some(150));
    assert_eq!(s.log[0].1, 100 * MS as i128);
    s.push_release('a', START + 180 * MS);
    assert_eq!(s.events[0].release_ms, Some(180));
    assert_eq!(s.log[0].1, -(80 * MS as i128));
}

#[test]
fn release_answers_latest_press_of_the_key() {
    let mut s = Session::new(START);
    press(&mut s, 'a', 0);
    press(&mut s, 'a', 40);
    s.push_release('a', START + 90 * MS);
    assert_eq!(s.events[0].release_ms, None);
    assert_eq!(s.events[1].release_ms, Some(90));
    s.push_release('a', START + 95 * MS);
    assert_eq!(s.events[0].release_ms, Some(95));
    assert_eq!(s.dwell_count(), 2);
    assert_eq!(s.events[0].dwell_ms(), Some(95));
    assert_eq!(s.events[1].dwell_ms(), Some(50));
    // a release with nothing pending changes nothing
    let before = s.events.clone();
    s.push_release('a', START + 99 * MS);
    s.push_release('z', START + 99 * MS);
    assert_eq!(s.events, before);
}

#[test]
fn repeated_bigrams_are_grouped_in_first_occurrence_order() {
    let mut s = Session::new(START);
    press(&mut s, 'a', 0);
    press(&mut s, 'b', 10);
    press(&mut s, 'a', 30);
    press(&mut s, 'b', 60);
    assert_eq!(s.interval_count(), 3);
    assert_eq!(s.unique_bigram_count(), 2);
    assert_eq!(
        s.bigrams,
        vec![
            (('a', 'b'), vec![10 * MS as i128, 30 * MS as i128]),
            (('b', 'a'), vec![20 * MS as i128]),
        ]
    );
    assert_eq!(s.bigram_counts(), vec![(('a', 'b'), 2), (('b', 'a'), 1)]);
}

#[test]
fn backspace_undoes_the_last_press() {
    let mut s = Session::new(START);
    press(&mut s, 'a', 0);
    press(&mut s, 'b', 10);
    let log = s.log.clone();
    let bigrams = s.bigrams.clone();
    press(&mut s, 'c', 30);
    assert_eq!(s.unique_bigram_count(), 2);
    s.push_backspace(START + 50 * MS);
    assert_eq!(s.text, "ab");
    assert_eq!(s.log, log);
    assert_eq!(s.bigrams, bigrams);
    assert_eq!(s.events.len(), 4);
    assert_eq!(s.events[3].key, '\x08');
    assert_eq!(s.events[3].keycode, 8);
    assert_eq!(s.events[3].press_ms, 50);
    // the next press pairs with 'b' again, timed from the backspace
    press(&mut s, 'd', 70);
    assert_eq!(s.log.last(), Some(&(('b', 'd'), 20 * MS as i128)));
}

#[test]
fn backspace_keeps_a_bigram_that_still_has_samples() {
    let mut s = Session::new(START);
    press(&mut s, 'a', 0);
    press(&mut s, 'b', 10);
    press(&mut s, 'a', 20);
    press(&mut s, 'b', 40);
    s.push_backspace(START + 50 * MS);
    assert_eq!(
        s.bigrams,
        vec![(('a', 'b'), vec![10 * MS as i128]), (('b', 'a'), vec![10 * MS as i128])]
    );
    assert_eq!(s.interval_count(), 2);
}

#[test]
fn backspace_on_empty_text_does_nothing() {
    let mut s = Session::new(START);
    s.push_backspace(START + 10 * MS);
    assert!(s.events.is_empty());
    assert!(s.text.is_empty());
}

#[test]
fn backspace_down_to_nothing_and_its_release() {
    let mut s = Session::new(START);
    press(&mut s, 'x', 0);
    s.push_backspace(START + 30 * MS);
    assert!(s.text.is_empty());
    assert!(s.log.is_empty());
    press(&mut s, 'y', 60);
    // after the first character is gone, the next press starts no bigram
    assert!(s.log.is_empty());
    s.push_backspace_release(START + 70 * MS);
    assert_eq!(s.events[1].key, '\x08');
    assert_eq!(s.events[1].release_ms, Some(70));
}

#[test]
fn backspace_drops_a_pending_flight() {
    let mut s = Session::new(START);
    press(&mut s, 'a', 0);
    press(&mut s, 'b', 10);
    press(&mut s, 'c', 25);
    s.push_backspace(START + 30 * MS);
    // 'b' is released after the interval it would have measured is gone
    s.push_release('b', START + 40 * MS);
    assert_eq!(s.log, vec![(('a', 'b'), 10 * MS as i128)]);
}

#[test]
fn times_before_start_or_backwards_saturate_at_zero() {
    let mut s = Session::new(START);
    s.push_char('a', 1, START - 5 * MS);
    s.text.push('a');
    s.push_char('b', 2, START - 10 * MS);
    s.text.push('b');
    assert_eq!(s.events[0].press_ms, 0);
    assert_eq!(s.log, vec![(('a', 'b'), 0)]);
}

#[test]
fn clear_starts_over() {
    let mut s = Session::new(START);
    press(&mut s, 'a', 0);
    press(&mut s, 'b', 10);
    s.clear(START + 1_000 * MS);
    assert!(s.is_empty());
    assert!(s.events.is_empty());
    assert!(s.text.is_empty());
    s.push_char('q', 1, START + 1_003 * MS);
    assert_eq!(s.events[0].press_ms, 3);
    assert!(s.log.is_empty());
}

#[test]
fn counts_for_profiles() {
    let mut s = Session::new(START);
    press(&mut s, 'é', 100);
    press(&mut s, 'a', 1_300);
    s.push_release('é', START + 200 * MS);
    assert_eq!(s.char_count(), 3);
    assert_eq!(s.elapsed_ms(), 1_200);
    assert_eq!(s.dwell_count(), 1);
}

#[test]
fn dwell_of_key_events() {
    let down = KeyEvent { key: 'k', keycode: 75, press_ms: 10, release_ms: None };
    assert_eq!(down.dwell_ms(), None);
    let up = KeyEvent { key: 'k', keycode: 75, press_ms: 10, release_ms: Some(42) };
    assert_eq!(up.dwell_ms(), Some(32));
}

#[test]
fn log_follows_the_typed_text() {
    let mut s = Session::new(START);
    for (i, ch) in "hello".chars().enumerate() {
        press(&mut s, ch, 10 * i as u64);
    }
    s.push_backspace(START + 60 * MS);
    press(&mut s, 'p', 70);
    s.push_release('l', START + 75 * MS);
    let t: Vec<char> = s.text.chars().collect();
    assert_eq!(s.text, "hellp");
    assert_eq!(s.log.len(), t.len() - 1);
    for (i, (bigram, _)) in s.log.iter().enumerate() {
        assert_eq!(*bigram, (t[i], t[i + 1]));
    }
}

#[test]
fn keystroke_features_of_typed_pairs() {
    let events = vec![
        KeyEvent { key: 'a', keycode: 0, press_ms: 100, release_ms: Some(180) },
        KeyEvent { key: '\x08', keycode: 8, press_ms: 150, release_ms: Some(160) },
        KeyEvent { key: 'b', keycode: 0, press_ms: 250, release_ms: None },
        KeyEvent { key: 'c', keycode: 0, press_ms: 240, release_ms: Some(300) },
    ];
    assert_eq!(
        kdnlp::typing::keystroke_sequence(&events),
        vec![(150, 80, 70), (-10, 0, -10)]
    );
    assert!(kdnlp::typing::keystroke_sequence(&events[..1].to_vec()).is_empty());
    assert!(kdnlp::typing::keystroke_sequence(&Vec::new()).is_empty());
}
