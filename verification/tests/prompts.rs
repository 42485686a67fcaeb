use kdnlp::prompts::{prompt_for, random_prompt, PROMPTS};

#[test]
fn prompts_are_taken_in_turn() {
    assert_eq!(prompt_for(0), PROMPTS[0]);
    assert_eq!(prompt_for(26), PROMPTS[26]);
    assert_eq!(prompt_for(27), PROMPTS[0]);
    assert_eq!(prompt_for(28), "I don't think we need to make a big deal of this.");
    assert_eq!(prompt_for(999_999_999), PROMPTS[999_999_999 % 27]);
}

#[test]
fn random_prompt_is_on_offer() {
    let p = random_prompt();
    assert!(PROMPTS.contains(&p));
}
