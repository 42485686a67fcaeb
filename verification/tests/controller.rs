use kdnlp::controller::{Controller, Mode};
use kdnlp::prompts::PROMPTS;

const MS: u64 = 1_000_000;

#[test]
fn starts_on_the_demo_page() {
    let c = Controller::new(0);
    assert_eq!(c.mode, Mode::Main);
    assert!(!c.is_fullscreen);
    assert!(!c.fixed_prompt);
    assert!(!c.ranking_in_flight);
    assert!(PROMPTS.contains(&c.current_prompt));
    assert!(c.session.is_empty());
}

#[test]
fn keys_reach_the_session_until_the_prompt_is_full() {
    let mut c = Controller::new(0);
    c.toggle_fixed_prompt(0);
    assert_eq!(c.current_prompt, PROMPTS[0]);
    let n = c.current_prompt.len();
    for i in 0..n + 3 {
        c.key_pressed('x', 1, i as u64 * MS);
    }
    assert_eq!(c.session.text.len(), n);
    assert_eq!(c.session.events.len(), n);
    assert_eq!(c.session.interval_count(), n - 1);
}

#[test]
fn ranking_starts_after_five_intervals_once() {
    let mut c = Controller::new(0);
    for (i, ch) in "abcdef".chars().enumerate() {
        c.key_pressed(ch, 0, i as u64 * MS);
    }
    assert_eq!(c.session.interval_count(), 5);
    assert!(!c.key_released('a', 10 * MS, 0));
    assert!(c.key_released('b', 11 * MS, 3));
    assert!(c.ranking_in_flight);
    assert!(!c.key_released('c', 12 * MS, 3));
    c.rankings_done();
    assert!(!c.ranking_in_flight);
    assert!(c.key_released('d', 13 * MS, 1));
}

#[test]
fn too_few_intervals_start_no_ranking() {
    let mut c = Controller::new(0);
    for (i, ch) in "abcd".chars().enumerate() {
        c.key_pressed(ch, 0, i as u64 * MS);
    }
    assert!(!c.key_released('a', 10 * MS, 4));
    assert!(!c.ranking_in_flight);
}

#[test]
fn enroll_and_identify_need_intervals() {
    let mut c = Controller::new(0);
    assert!(!c.can_enroll(false));
    assert!(!c.can_identify(2));
    c.key_pressed('h', 0, 0);
    c.key_pressed('i', 0, MS);
    assert!(c.can_enroll(false));
    assert!(!c.can_enroll(true));
    assert!(c.can_identify(2));
    assert!(!c.can_identify(0));
    c.enrolled(5 * MS);
    assert!(c.session.is_empty());
    assert!(c.session.text.is_empty());
}

#[test]
fn backspace_and_clear() {
    let mut c = Controller::new(0);
    c.key_pressed('o', 0, 0);
    c.key_pressed('k', 0, MS);
    c.backspace(2 * MS);
    assert_eq!(c.session.text, "o");
    c.backspace_released(3 * MS);
    assert_eq!(c.session.events[2].release_ms, Some(3));
    c.ranking_in_flight = true;
    c.clear(10 * MS);
    assert!(!c.ranking_in_flight);
    assert!(c.session.events.is_empty());
}

#[test]
fn page_and_window_switches() {
    let mut c = Controller::new(0);
    c.change_mode(Mode::Profiles);
    assert_eq!(c.mode, Mode::Profiles);
    assert!(c.toggle_fullscreen());
    assert!(!c.toggle_fullscreen());
    c.toggle_fixed_prompt(0);
    assert!(c.fixed_prompt);
    assert_eq!(c.next_prompt(), PROMPTS[0]);
    c.toggle_fixed_prompt(0);
    assert!(!c.fixed_prompt);
}
