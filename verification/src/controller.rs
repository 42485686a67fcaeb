//! The decisions of the demo screen, apart from drawing and storage: which keys reach
//! the session, when a ranking is started, and what clearing or enrolling resets.
use vstd::prelude::*;

use crate::prompts::{random_prompt, PROMPTS};
use crate::typing::{
    backspaced, law_backspace_keeps_text_and_log, law_press_keeps_text_and_log,
    law_release_keeps_text_and_log, pressed, released, text_matches_log, typed, Session,
};

verus! {

/// The page on screen.
#[derive(Clone, Copy, Debug, PartialEq, Eq, Structural)]
pub enum Mode {
    Main,
    Profiles,
}

/// `String::push`: appends `c`.
#[verifier::external_body]
fn push_to_text(s: &mut String, c: char)
    ensures
        final(s)@ == old(s)@.push(c),
{
    s.push(c)
}

/// The length in bytes of the UTF-8 encoding of `s`, as `str::len` gives it.
pub open spec fn byte_len(s: Seq<char>) -> usize {
    vstd::utf8::encode_utf8(s).len() as usize
}

/// The prompt is one of the prompts on offer.
pub open spec fn is_prompt(p: &'static str) -> bool {
    exists|i: int| 0 <= i < 27 && p == PROMPTS@[i]
}

/// The state of the demo screen that its decisions read and write.
pub struct Controller {
    pub mode: Mode,
    pub is_fullscreen: bool,
    pub session: Session,
    pub current_prompt: &'static str,
    pub fixed_prompt: bool,
    pub ranking_in_flight: bool,
}

impl Controller {
    /// The session is well formed, its log is in step with its typed text, and the
    /// prompt is one on offer.
    pub open spec fn wf(&self) -> bool {
        &&& self.session.wf()
        &&& text_matches_log(self.session)
        &&& is_prompt(self.current_prompt)
    }

    /// The demo page with an empty session started at `start_ns` and a prompt picked
    /// by the clock.
    pub fn new(start_ns: u64) -> (c: Controller)
        ensures
            c.wf(),
            c.mode == Mode::Main,
            !c.is_fullscreen,
            !c.fixed_prompt,
            !c.ranking_in_flight,
            c.session.fresh(start_ns),
    {
        Controller {
            mode: Mode::Main,
            is_fullscreen: false,
            session: Session::new(start_ns),
            current_prompt: random_prompt(),
            fixed_prompt: false,
            ranking_in_flight: false,
        }
    }

    /// The prompt to type next: the first prompt when it is held fixed, else one
    /// picked by the clock.
    pub fn next_prompt(&self) -> (r: &'static str)
        ensures
            is_prompt(r),
            self.fixed_prompt ==> r == PROMPTS@[0],
    {
        if self.fixed_prompt {
            let prompts = PROMPTS;
            prompts[0]
        } else {
            random_prompt()
        }
    }

    /// Shows page `mode`.
    pub fn change_mode(&mut self, mode: Mode)
        ensures
            *final(self) == (Controller { mode, ..*old(self) }),
    {
        self.mode = mode;
    }

    /// Flips full screen; gives back the new setting, for the window.
    pub fn toggle_fullscreen(&mut self) -> (r: bool)
        ensures
            r == !old(self).is_fullscreen,
            *final(self) == (Controller { is_fullscreen: r, ..*old(self) }),
    {
        self.is_fullscreen = !self.is_fullscreen;
        self.is_fullscreen
    }

    /// A typed character reaches the session only while the text is shorter than the
    /// prompt (in bytes); it is then recorded and appended to the text.
    pub fn key_pressed(&mut self, ch: char, keycode: u32, t: u64)
        requires
            old(self).wf(),
        ensures
            final(self).wf(),
            final(self).mode == old(self).mode,
            final(self).is_fullscreen == old(self).is_fullscreen,
            final(self).current_prompt == old(self).current_prompt,
            final(self).fixed_prompt == old(self).fixed_prompt,
            final(self).ranking_in_flight == old(self).ranking_in_flight,
            byte_len(old(self).session.text@) < byte_len(old(self).current_prompt@) ==> exists|s: Session|
                pressed(old(self).session, s, ch, keycode, t) && typed(s, final(self).session, ch),
            byte_len(old(self).session.text@) >= byte_len(old(self).current_prompt@) ==> final(self).session == old(self).session,
    {
        if self.session.text.as_str().len() < self.current_prompt.len() {
            self.session.push_char(ch, keycode, t);
            let ghost s = self.session;
            push_to_text(&mut self.session.text, ch);
            assert(pressed(old(self).session, s, ch, keycode, t));
            assert(typed(s, self.session, ch));
            proof {
                law_press_keeps_text_and_log(old(self).session, s, self.session, ch, keycode, t);
            }
        }
    }

    /// A released key reaches the session; gives back whether a ranking should start
    /// now: with some profile to rank, at least five intervals, and none under way.
    pub fn key_released(&mut self, ch: char, t: u64, profile_count: usize) -> (start_ranking: bool)
        requires
            old(self).wf(),
        ensures
            final(self).wf(),
            released(old(self).session, final(self).session, ch, t),
            start_ranking == (profile_count > 0 && final(self).session.log@.len() >= 5
                && !old(self).ranking_in_flight),
            final(self).ranking_in_flight == (old(self).ranking_in_flight || start_ranking),
            final(self).mode == old(self).mode,
            final(self).is_fullscreen == old(self).is_fullscreen,
            final(self).current_prompt == old(self).current_prompt,
            final(self).fixed_prompt == old(self).fixed_prompt,
    {
        self.session.push_release(ch, t);
        proof {
            law_release_keeps_text_and_log(old(self).session, self.session, ch, t);
        }
        if profile_count > 0 && self.session.interval_count() >= 5 && !self.ranking_in_flight {
            self.ranking_in_flight = true;
            true
        } else {
            false
        }
    }

    /// A ranking has come back.
    pub fn rankings_done(&mut self)
        ensures
            *final(self) == (Controller { ranking_in_flight: false, ..*old(self) }),
    {
        self.ranking_in_flight = false;
    }

    /// A backspace reaches the session.
    pub fn backspace(&mut self, t: u64)
        requires
            old(self).wf(),
        ensures
            final(self).wf(),
            backspaced(old(self).session, final(self).session, t),
            *final(self) == (Controller { session: final(self).session, ..*old(self) }),
    {
        self.session.push_backspace(t);
        proof {
            law_backspace_keeps_text_and_log(old(self).session, self.session, t);
        }
    }

    /// The release of a backspace reaches the session.
    pub fn backspace_released(&mut self, t: u64)
        requires
            old(self).wf(),
        ensures
            final(self).wf(),
            released(old(self).session, final(self).session, '\x08', t),
            *final(self) == (Controller { session: final(self).session, ..*old(self) }),
    {
        self.session.push_backspace_release(t);
        proof {
            law_release_keeps_text_and_log(old(self).session, self.session, '\x08', t);
        }
    }

    /// Enrolling needs a name that is not blank and a session with some interval.
    pub fn can_enroll(&self, name_is_blank: bool) -> (r: bool)
        requires
            self.wf(),
        ensures
            r == (!name_is_blank && self.session.log@.len() > 0),
    {
        !name_is_blank && !self.session.is_empty()
    }

    /// Identifying needs some profile and a session with some interval.
    pub fn can_identify(&self, profile_count: usize) -> (r: bool)
        requires
            self.wf(),
        ensures
            r == (profile_count > 0 && self.session.log@.len() > 0),
    {
        profile_count > 0 && !self.session.is_empty()
    }

    /// After an enrollment: a fresh session from `now` and the next prompt.
    pub fn enrolled(&mut self, now: u64)
        requires
            old(self).wf(),
        ensures
            final(self).wf(),
            final(self).session.fresh(now),
            old(self).fixed_prompt ==> final(self).current_prompt == PROMPTS@[0],
            final(self).mode == old(self).mode,
            final(self).is_fullscreen == old(self).is_fullscreen,
            final(self).fixed_prompt == old(self).fixed_prompt,
            final(self).ranking_in_flight == old(self).ranking_in_flight,
    {
        self.session.clear(now);
        self.current_prompt = self.next_prompt();
    }

    /// Clear: a fresh session from `now`, no ranking under way, and the next prompt.
    pub fn clear(&mut self, now: u64)
        requires
            old(self).wf(),
        ensures
            final(self).wf(),
            final(self).session.fresh(now),
            !final(self).ranking_in_flight,
            old(self).fixed_prompt ==> final(self).current_prompt == PROMPTS@[0],
            final(self).mode == old(self).mode,
            final(self).is_fullscreen == old(self).is_fullscreen,
            final(self).fixed_prompt == old(self).fixed_prompt,
    {
        self.session.clear(now);
        self.ranking_in_flight = false;
        self.current_prompt = self.next_prompt();
    }

    /// Holds the prompt fixed, or lets it vary again; the session starts over from `now`.
    pub fn toggle_fixed_prompt(&mut self, now: u64)
        requires
            old(self).wf(),
        ensures
            final(self).wf(),
            final(self).fixed_prompt == !old(self).fixed_prompt,
            final(self).session.fresh(now),
            final(self).fixed_prompt ==> final(self).current_prompt == PROMPTS@[0],
            final(self).mode == old(self).mode,
            final(self).is_fullscreen == old(self).is_fullscreen,
            final(self).ranking_in_flight == old(self).ranking_in_flight,
    {
        self.fixed_prompt = !self.fixed_prompt;
        self.session.clear(now);
        self.current_prompt = self.next_prompt();
    }
}

} // verus!
