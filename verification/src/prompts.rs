//! The sentences offered for typing, and the choice of one of them.
use vstd::prelude::*;

use std::time::{Duration, SystemTime, SystemTimeError};

verus! {

/// The prompts a session can be typed from.
pub const PROMPTS: [&'static str; 27] = [
    "She started singing along softly with the radio.",
    "I don't think we need to make a big deal of this.",
    "I hope everything worked out okay with your rent.",
    "In the end, we chose to keep our traditional method.",
    "There were frequent electricity and water shortages.",
    "How would you explain the difference between the two?",
    "One would have thought I'd have this down pat by now.",
    "I will follow up with him as soon as the dust settles.",
    "The important thing is to keep your feet on the ground.",
    "I met my neighbors in the park across the street tonight.",
    "I just want to make sure we're both on the same schedule.",
    "He said he had been surprised to see his name on the list.",
    "Please let me know if there is any way that I can help you.",
    "John is out today, but will be back in the office tomorrow.",
    "It should save the taxpayers a considerable amount of money.",
    "Treatment options consist of rest, an injection, or surgery.",
    "Later works dealt with ethical concerns in the modern world.",
    "I called my husband at work today just to tell him I loved him.",
    "Let me consult my partner and get back with you in the morning.",
    "This time I'm more comfortable and aware of a lot more situations.",
    "It was the best dinner table conversation we've had in a long time.",
    "Then we lit our candles and just stood there silently, holding them.",
    "For safety reasons, the turkey will be carved in a private ceremony.",
    "But there have been so many changes in plans that I'm not surprised.",
    "Let me know if you do not hear from them in the next couple of days.",
    "I have a touch of food poisoning this morning but I may be in later.",
    "The law enforcement has responsibility for the safety of the public.",
];

#[verifier::external_type_specification]
#[verifier::external_body]
pub struct ExSystemTime(SystemTime);

#[verifier::external_type_specification]
#[verifier::external_body]
pub struct ExSystemTimeError(SystemTimeError);

/// `SystemTime::now`: the current wall-clock time; nothing is claimed of it.
#[verifier::external_body]
fn system_now() -> SystemTime {
    SystemTime::now()
}

/// `SystemTime::duration_since(UNIX_EPOCH)`: the time since the epoch, an error when the
/// clock is set before it; nothing is claimed of either.
#[verifier::external_body]
fn since_unix_epoch(t: &SystemTime) -> Result<Duration, SystemTimeError> {
    t.duration_since(std::time::UNIX_EPOCH)
}

/// `Duration::subsec_nanos`: the fractional part of a duration in nanoseconds, which
/// its documentation says is always less than one billion.
#[verifier::external_body]
fn subsec_nanos(d: &Duration) -> (r: u32)
    ensures
        r < 1_000_000_000,
{
    d.subsec_nanos()
}

/// The prompt that a clock reading of `nanos` picks: prompts are taken in turn.
pub fn prompt_for(nanos: usize) -> (r: &'static str)
    ensures
        r == PROMPTS@[(nanos as int) % 27],
{
    let prompts = PROMPTS;
    prompts[nanos % 27]
}

/// Reads the clock and picks a prompt by it: the sub-second nanoseconds of the current
/// time (zero when the clock stands before the Unix epoch), with the prompt that
/// reading picks.
pub fn clock_prompt() -> (r: (u32, &'static str))
    ensures
        r.0 < 1_000_000_000,
        r.1 == PROMPTS@[(r.0 as int) % 27],
{
    let nanos: u32 = match since_unix_epoch(&system_now()) {
        Ok(d) => subsec_nanos(&d),
        Err(_) => 0,
    };
    (
        nanos,
        prompt_for(nanos as usize),
    )
}

/// A prompt picked by the sub-second part of the current time.
pub fn random_prompt() -> (r: &'static str)
    ensures
        exists|i: int| 0 <= i < 27 && r == PROMPTS@[i],
{
    let (nanos, prompt) = clock_prompt();
    assert(0 <= (nanos as int) % 27 < 27);
    prompt
}

} // verus!
