use kdnlp::chart::{axis_codes, rank_of, scatter_order};

fn names(xs: &[&str]) -> Vec<String> {
    xs.iter().map(|s| s.to_string()).collect()
}

#[test]
fn axis_lists_each_character_once_in_order() {
    let keys = vec![('t', 'h'), ('h', 'e'), ('e', ' '), (' ', 't')];
    let codes = axis_codes(&keys);
    let chars: Vec<char> = codes.into_iter().map(|c| char::from_u32(c).unwrap()).collect();
    assert_eq!(chars, vec![' ', 'e', 'h', 't']);
}

#[test]
fn axis_of_no_bigrams_is_empty() {
    assert!(axis_codes(&Vec::new()).is_empty());
}

#[test]
fn axis_orders_by_code_point() {
    let keys = vec![('é', 'a'), ('Z', 'a')];
    assert_eq!(axis_codes(&keys), vec!['Z' as u32, 'a' as u32, 'é' as u32]);
}

#[test]
fn rank_is_last_place_or_max() {
    let ranked = names(&["ann", "bob", "ann"]);
    assert_eq!(rank_of(&ranked, &"bob".to_string()), 1);
    assert_eq!(rank_of(&ranked, &"ann".to_string()), 2);
    assert_eq!(rank_of(&ranked, &"cid".to_string()), usize::MAX);
}

#[test]
fn scatter_points_follow_the_ranking() {
    let points = names(&["cid", "ann", "dan", "bob", "eve"]);
    let ranked = names(&["bob", "cid", "ann"]);
    // unranked points keep their order, after the ranked ones
    assert_eq!(scatter_order(&points, &ranked), vec![3, 0, 1, 2, 4]);
}

#[test]
fn scatter_order_of_nothing_is_empty() {
    assert!(scatter_order(&Vec::new(), &names(&["ann"])).is_empty());
}
