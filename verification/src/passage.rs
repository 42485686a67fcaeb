//! How the prompt is shown against what has been typed: which characters are right,
//! wrong or still to type, and which glyph stands for each.
use vstd::prelude::*;

verus! {

/// The state of one character of the prompt.
#[derive(Clone, Copy, Debug, PartialEq, Eq, Structural)]
pub enum CharState {
    Correct,
    Wrong,
    Untyped,
}

/// Character `i` of the prompt is correct when typed as it stands, wrong when typed
/// otherwise, untyped when the text has not reached it.
pub open spec fn state_at(passage: Seq<char>, typed: Seq<char>, i: int) -> CharState {
    if i < typed.len() {
        if typed[i] == passage[i] {
            CharState::Correct
        } else {
            CharState::Wrong
        }
    } else {
        CharState::Untyped
    }
}

/// The state of character `i` of the prompt.
pub fn char_state(passage: &Vec<char>, typed: &Vec<char>, i: usize) -> (r: CharState)
    requires
        i < passage@.len(),
    ensures
        r == state_at(passage@, typed@, i as int),
{
    if i < typed.len() {
        if typed[i] == passage[i] {
            CharState::Correct
        } else {
            CharState::Wrong
        }
    } else {
        CharState::Untyped
    }
}

/// Every typed character is held against the prompt character at its place, the
/// space like any other: it is correct when the two are equal and wrong when they
/// differ; a prompt character past the end of the text is untyped.
pub proof fn law_typed_character_compared(passage: Seq<char>, typed: Seq<char>, i: int)
    requires
        0 <= i < passage.len(),
    ensures
        i < typed.len() ==> (state_at(passage, typed, i) == CharState::Correct <==> typed[i]
            == passage[i]),
        i < typed.len() ==> (state_at(passage, typed, i) == CharState::Wrong <==> typed[i]
            != passage[i]),
        state_at(passage, typed, i) == CharState::Untyped <==> i >= typed.len(),
{
}

/// The glyph drawn for a prompt character: a space shows only when it was typed
/// wrongly, as a middle dot; every other character shows as itself.
pub fn glyph(c: char, state: CharState) -> (r: Option<char>)
    ensures
        r == (if c == ' ' {
            if state == CharState::Wrong {
                Some('·')
            } else {
                None
            }
        } else {
            Some(c)
        }),
{
    if c == ' ' {
        match state {
            CharState::Wrong => Some('·'),
            _ => None,
        }
    } else {
        Some(c)
    }
}

/// Where the cursor stands: before character `typed_len` of the prompt, or after the
/// last one once the text is as long as the prompt (`None` for an empty prompt).
pub fn cursor_position(passage_len: usize, typed_len: usize) -> (r: Option<usize>)
    ensures
        r == (if typed_len < passage_len {
            Some(typed_len)
        } else if passage_len > 0 {
            Some(passage_len)
        } else {
            None
        }),
{
    if typed_len < passage_len {
        Some(typed_len)
    } else if passage_len > 0 {
        Some(passage_len)
    } else {
        None
    }
}

} // verus!
