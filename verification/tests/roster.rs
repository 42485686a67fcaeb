use kdnlp::roster::{position_of_name, unenrolled};

fn names(v: &[&str]) -> Vec<String> {
    v.iter().map(|s| s.to_string()).collect()
}

#[test]
fn finds_the_first_profile_with_a_name() {
    let n = names(&["ann", "bob", "ann"]);
    assert_eq!(position_of_name(&n, &"ann".to_string()), Some(0));
    assert_eq!(position_of_name(&n, &"bob".to_string()), Some(1));
    assert_eq!(position_of_name(&n, &"cy".to_string()), None);
    assert_eq!(position_of_name(&Vec::new(), &"cy".to_string()), None);
}

#[test]
fn keeps_demo_profiles_that_are_not_enrolled() {
    let demo = names(&["u1", "ann", "u2", "bob", "u3"]);
    let enrolled = names(&["bob", "ann"]);
    assert_eq!(unenrolled(&demo, &enrolled), vec![0, 2, 4]);
    assert_eq!(unenrolled(&demo, &Vec::new()), vec![0, 1, 2, 3, 4]);
    assert_eq!(unenrolled(&Vec::new(), &enrolled), Vec::<usize>::new());
}

#[test]
fn search_is_case_folded_and_matches_inside_names() {
    let names: Vec<String> = ["alice", "bob", "malik", "Alina"].iter().map(|s| s.to_string()).collect();
    assert_eq!(kdnlp::roster::search_names(&names, "LI"), vec![0, 2, 3]);
    // the names themselves are not case folded
    assert_eq!(kdnlp::roster::search_names(&names, "AL"), vec![0, 2]);
    assert_eq!(kdnlp::roster::search_names(&names, "bo"), vec![1]);
    assert_eq!(kdnlp::roster::search_names(&names, "zz"), Vec::<usize>::new());
}

#[test]
fn empty_search_shows_every_name() {
    let names: Vec<String> = ["a", "b"].iter().map(|s| s.to_string()).collect();
    assert_eq!(kdnlp::roster::search_names(&names, ""), vec![0, 1]);
    assert_eq!(kdnlp::roster::positions_matching(&names, &String::new()), vec![0, 1]);
}

#[test]
fn query_is_matched_as_given() {
    let names: Vec<String> = ["Alice", "alice"].iter().map(|s| s.to_string()).collect();
    assert_eq!(kdnlp::roster::positions_matching(&names, &"Al".to_string()), vec![0]);
}
