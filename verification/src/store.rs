//! The counts of a stored profile, filled in when an older file left them out.
use vstd::prelude::*;

use crate::typing::{count_typed, typed_count, KeyEvent};

verus! {

/// The number of sessions a stored profile counts when the file does not say.
pub fn default_session_count() -> (r: usize)
    ensures
        r == 1,
{
    1
}

/// The character count of a stored profile: the stored count, or, when that is zero,
/// the number of stored events that are not backspaces.
pub fn restored_char_count(stored: usize, events: &Vec<KeyEvent>) -> (r: usize)
    ensures
        r == (if stored > 0 {
            stored as nat
        } else {
            count_typed(events@)
        }),
{
    if stored > 0 {
        stored
    } else {
        typed_count(events)
    }
}

/// The interval count of a stored profile: the stored count, or, when that is zero,
/// the number of bigrams it holds.
pub fn restored_interval_count(stored: usize, bigram_count: usize) -> (r: usize)
    ensures
        r == (if stored > 0 {
            stored
        } else {
            bigram_count
        }),
{
    if stored > 0 {
        stored
    } else {
        bigram_count
    }
}

} // verus!
