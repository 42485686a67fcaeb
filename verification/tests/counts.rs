use kdnlp::counts::{merge_counts, prior_count};
use kdnlp::typing::Session;

#[test]
fn merging_adds_counts_and_appends_new_bigrams() {
    let mut counts = vec![(('a', 'b'), 2), (('b', 'c'), 1)];
    let added = vec![(('b', 'c'), 4), (('x', 'y'), 3)];
    merge_counts(&mut counts, &added);
    assert_eq!(counts, vec![(('a', 'b'), 2), (('b', 'c'), 5), (('x', 'y'), 3)]);
}

#[test]
fn merging_nothing_changes_nothing() {
    let mut counts = vec![(('a', 'b'), 2)];
    merge_counts(&mut counts, &Vec::new());
    assert_eq!(counts, vec![(('a', 'b'), 2)]);
    let mut empty = Vec::new();
    merge_counts(&mut empty, &vec![(('q', 'u'), 1)]);
    assert_eq!(empty, vec![(('q', 'u'), 1)]);
}

#[test]
fn prior_count_defaults_to_one() {
    let counts = vec![(('a', 'b'), 7)];
    assert_eq!(prior_count(&counts, ('a', 'b')), 7);
    assert_eq!(prior_count(&counts, ('b', 'a')), 1);
}

#[test]
fn session_totals_add_up() {
    let mut s = Session::new(0);
    for (i, ch) in "héllo".chars().enumerate() {
        s.push_char(ch, 0, i as u64 * 1_000_000);
        s.text.push(ch);
    }
    s.push_release('h', 500_000);
    let (mut chars, mut intervals, mut dwells) = (10, 20, 30);
    kdnlp::counts::add_session_totals(&mut chars, &mut intervals, &mut dwells, &s);
    assert_eq!((chars, intervals, dwells), (16, 24, 31));
}

#[test]
fn merging_keeps_only_keys_of_the_inputs() {
    let mut counts = vec![(('t', 'h'), 1)];
    let added = vec![(('h', 'e'), 2), (('t', 'h'), 3)];
    merge_counts(&mut counts, &added);
    assert_eq!(counts.len(), 2);
    for (b, _) in &counts {
        assert!(*b == ('t', 'h') || *b == ('h', 'e'));
    }
    assert!(!counts.iter().any(|(b, _)| *b == (' ', ' ')));
}
