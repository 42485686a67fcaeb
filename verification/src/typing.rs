//! A typing session: key presses and releases on a clock of nanoseconds, turned into
//! per-bigram intervals (the time from one press to the next, replaced by the flight
//! time once the earlier key is released).
use vstd::prelude::*;

use crate::grouping::{
    Bigram, distinct_keys, group_log, index_of_key, lemma_group_keys, lemma_group_log,
    lemma_group_log_empty, lemma_group_log_pop, lemma_group_log_push, lemma_group_log_set_last,
    lemma_index_of_key, lemma_index_of_key_unique, lemma_total_samples_prefix, log_bigrams,
    samples_in_log, total_samples,
};
use crate::releases::{
    latest_unreleased, record_press, release_press, released_event, releases_wf, stacks_view,
};

verus! {

/// One key press, with its release once the key comes up, in milliseconds since the
/// start of the session.
#[derive(Clone, Copy, Debug, PartialEq, Eq, Structural)]
pub struct KeyEvent {
    pub key: char,
    pub keycode: u32,
    pub press_ms: u64,
    pub release_ms: Option<u64>,
}

impl KeyEvent {
    /// How long the key was held, in milliseconds; `None` while it is still down.
    pub fn dwell_ms(&self) -> (r: Option<u64>)
        requires
            self.release_ms matches Some(rel) ==> rel >= self.press_ms,
        ensures
            r == (match self.release_ms {
                Some(rel) => Some((rel - self.press_ms) as u64),
                None => None,
            }),
    {
        match self.release_ms {
            Some(rel) => Some(rel - self.press_ms),
            None => None,
        }
    }
}

/// Whole milliseconds from `start` to `t` (both in nanoseconds), zero when `t` is earlier.
pub open spec fn millis_since(start: u64, t: u64) -> u64 {
    if t >= start {
        ((t - start) / 1_000_000) as u64
    } else {
        0
    }
}

/// The time from one press to the next, in nanoseconds, zero when the clock went back.
pub open spec fn key_interval(prev: u64, t: u64) -> i128 {
    if t >= prev {
        (t - prev) as i128
    } else {
        0
    }
}

/// The time from the release of a key to the press of the next one, in nanoseconds;
/// negative when the next key went down before the earlier one came up.
pub open spec fn flight_interval(next_press: u64, release: u64) -> i128 {
    (next_press - release) as i128
}

/// Computes `millis_since`.
fn millis_between(start: u64, t: u64) -> (r: u64)
    ensures
        r == millis_since(start, t),
{
    if t >= start {
        (t - start) / 1_000_000
    } else {
        0
    }
}

/// The bigram table as a model: each bigram with the sequence of its intervals.
pub open spec fn groups_view(bigrams: Seq<(Bigram, Vec<i128>)>) -> Seq<(Bigram, Seq<i128>)> {
    bigrams.map_values(|e: (Bigram, Vec<i128>)| (e.0, e.1@))
}

/// Whether a release of `ch` answers the flight that `awaiting` waits for.
pub open spec fn answers_flight(awaiting: Option<(char, u64)>, ch: char) -> bool {
    awaiting matches Some(a) && a.0 == ch
}

/// Where bigram `b` stands in the table.
fn find_bigram(bigrams: &Vec<(Bigram, Vec<i128>)>, b: Bigram) -> (r: Option<usize>)
    ensures
        r matches Some(i) ==> i as int == index_of_key(groups_view(bigrams@), b),
        r is None ==> index_of_key(groups_view(bigrams@), b) == -1,
{
    let ghost g = groups_view(bigrams@);
    let mut i = bigrams.len();
    assert(g.take(i as int) =~= g);
    while i > 0
        invariant
            i <= bigrams.len(),
            g == groups_view(bigrams@),
            index_of_key(g.take(i as int), b) == index_of_key(g, b),
        decreases i,
    {
        let e = &bigrams[i - 1];
        assert(g.take(i as int).drop_last() =~= g.take(i - 1));
        assert(g.take(i as int).last() == g[i - 1]);
        if (e.0).0 == b.0 && (e.0).1 == b.1 {
            return Some(i - 1);
        }
        i -= 1;
    }
    None
}

/// `String::pop`: removes the last character of `s` and gives it back; `None`, with
/// `s` unchanged, when `s` is empty.
#[verifier::external_body]
fn pop_last_char(s: &mut String) -> (r: Option<char>)
    ensures
        old(s)@.len() == 0 ==> r is None && final(s)@ == old(s)@,
        old(s)@.len() > 0 ==> r == Some(old(s)@.last()) && final(s)@ == old(s)@.drop_last(),
{
    s.pop()
}

/// A flight waiting for the release of the earlier key of the last logged bigram:
/// where its interval stands, and when the key after it went down.
#[derive(Clone, Copy, Debug)]
pub struct PendingFlight {
    pub bigram: Bigram,
    pub vec_idx: usize,
    pub log_idx: usize,
    pub next_press: u64,
    pub prev_char: char,
}

/// A typing session. Times come in as nanoseconds on one monotonic clock; the events
/// hold milliseconds since the session started, the intervals nanoseconds.
#[derive(Clone, Debug)]
pub struct Session {
    /// What has been typed so far; the caller appends to it after each press.
    pub text: String,
    pub events: Vec<KeyEvent>,
    /// The intervals of each bigram, bigrams in order of first occurrence.
    pub bigrams: Vec<(Bigram, Vec<i128>)>,
    /// Every interval in the order it was recorded.
    pub log: Vec<(Bigram, i128)>,
    /// When the session started.
    pub start_ns: u64,
    /// The character of the latest press that still counts (a backspace steps it back).
    pub last_char: Option<char>,
    /// The time of the latest press or backspace.
    pub last_press: Option<u64>,
    /// For each key that is down, the indices of its unreleased presses, oldest first.
    pub pending_releases: Vec<(char, Vec<usize>)>,
    /// The interval that the next release of its first key turns into a flight time.
    pub pending_flight: Option<PendingFlight>,
}

impl Session {
    /// The intervals of each bigram, as a model.
    pub open spec fn groups(&self) -> Seq<(Bigram, Seq<i128>)> {
        groups_view(self.bigrams@)
    }

    /// When the session started, in nanoseconds.
    pub open spec fn started_at(&self) -> u64 {
        self.start_ns
    }

    /// The character of the latest press that still counts (a backspace steps it back).
    pub open spec fn previous_char(&self) -> Option<char> {
        self.last_char
    }

    /// The time of the latest press or backspace.
    pub open spec fn previous_press(&self) -> Option<u64> {
        self.last_press
    }

    /// The key whose release will turn the last logged interval into a flight time,
    /// with the time of the press that followed it.
    pub open spec fn awaiting_flight(&self) -> Option<(char, u64)> {
        match self.pending_flight {
            Some(pf) => Some((pf.prev_char, pf.next_press)),
            None => None,
        }
    }

    /// The bookkeeping that is not visible in the public fields is consistent with them.
    pub open spec fn internals_wf(&self) -> bool {
        &&& releases_wf(stacks_view(self.pending_releases@), self.events@)
        &&& self.last_char is None ==> self.log@.len() == 0
        &&& self.last_char is Some ==> self.last_press is Some
        &&& match self.pending_flight {
            Some(pf) => {
                let g = group_log(self.log@);
                let k = index_of_key(g, pf.bigram);
                &&& self.log@.len() > 0
                &&& pf.log_idx == self.log@.len() - 1
                &&& self.log@.last().0 == pf.bigram
                &&& pf.prev_char == pf.bigram.0
                &&& k >= 0
                &&& pf.vec_idx + 1 == g[k].1.len()
            },
            None => true,
        }
    }

    /// A well-formed session: the bigram table is the log grouped by bigram.
    pub open spec fn wf(&self) -> bool {
        &&& self.groups() == group_log(self.log@)
        &&& self.internals_wf()
    }

    /// An empty session started at `start_ns`.
    pub open spec fn fresh(&self, start_ns: u64) -> bool {
        &&& self.text@.len() == 0
        &&& self.events@.len() == 0
        &&& self.bigrams@.len() == 0
        &&& self.log@.len() == 0
        &&& self.started_at() == start_ns
        &&& self.previous_char() is None
        &&& self.previous_press() is None
        &&& self.awaiting_flight() is None
    }

    /// A new, empty session started at `start_ns`.
    pub fn new(start_ns: u64) -> (s: Session)
        ensures
            s.wf(),
            s.fresh(start_ns),
    {
        let s = Session {
            text: String::new(),
            events: Vec::new(),
            bigrams: Vec::new(),
            log: Vec::new(),
            start_ns,
            last_char: None,
            last_press: None,
            pending_releases: Vec::new(),
            pending_flight: None,
        };
        assert(s.groups() =~= group_log(s.log@));
        s
    }

    /// Records the press of `ch` at `t`: a new event, and the interval since the previous
    /// press under the bigram of the two characters.
    pub fn push_char(&mut self, ch: char, keycode: u32, t: u64)
        requires
            old(self).wf(),
        ensures
            final(self).wf(),
            pressed(*old(self), *final(self), ch, keycode, t),
    {
        let ghost log0 = self.log@;
        let ghost g0 = group_log(log0);
        let press_ms = millis_between(self.start_ns, t);
        match (self.last_char, self.last_press) {
            (Some(prev), Some(prev_t)) => {
                let bigram = (prev, ch);
                let iki: i128 = if t >= prev_t {
                    (t - prev_t) as i128
                } else {
                    0
                };
                proof {
                    lemma_group_log(log0);
                    lemma_index_of_key(g0, bigram);
                    lemma_group_log_push(log0, (bigram, iki));
                    lemma_group_log(log0.push((bigram, iki)));
                }
                let vec_idx: usize;
                match find_bigram(&self.bigrams, bigram) {
                    Some(i) => {
                        vec_idx = self.bigrams[i].1.len();
                        self.bigrams[i].1.push(iki);
                        assert(self.groups() =~= g0.update(
                            i as int,
                            (bigram, g0[i as int].1.push(iki)),
                        ));
                        proof {
                            lemma_index_of_key_unique(
                                group_log(log0.push((bigram, iki))),
                                bigram,
                                i as int,
                            );
                        }
                    },
                    None => {
                        vec_idx = 0;
                        let mut v: Vec<i128> = Vec::new();
                        v.push(iki);
                        self.bigrams.push((bigram, v));
                        assert(self.groups() =~= g0.push((bigram, seq![iki])));
                        proof {
                            lemma_index_of_key_unique(
                                group_log(log0.push((bigram, iki))),
                                bigram,
                                g0.len() as int,
                            );
                        }
                    },
                }
                let log_idx = self.log.len();
                self.log.push((bigram, iki));
                self.pending_flight = Some(
                    PendingFlight { bigram, vec_idx, log_idx, next_press: t, prev_char: prev },
                );
            },
            _ => {},
        }
        let ghost ev0 = self.events@;
        self.events.push(KeyEvent { key: ch, keycode, press_ms, release_ms: None });
        assert(self.events@.drop_last() =~= ev0);
        record_press(&mut self.pending_releases, &self.events);
        self.last_char = Some(ch);
        self.last_press = Some(t);
    }

    /// Records the release of `ch` at `t`: the latest press of `ch` still down gets its
    /// release time, and when `ch` is the first key of the last logged bigram, that
    /// interval becomes the flight time from this release to the next press.
    pub fn push_release(&mut self, ch: char, t: u64)
        requires
            old(self).wf(),
        ensures
            final(self).wf(),
            released(*old(self), *final(self), ch, t),
    {
        let ghost log0 = self.log@;
        let release_ms = millis_between(self.start_ns, t);
        release_press(&mut self.pending_releases, &mut self.events, ch, release_ms);
        if let Some(pf) = self.pending_flight.take() {
            if ch == pf.prev_char {
                let flight: i128 = pf.next_press as i128 - t as i128;
                proof {
                    lemma_group_log_set_last(log0, flight);
                }
                match find_bigram(&self.bigrams, pf.bigram) {
                    Some(i) => {
                        if pf.vec_idx < self.bigrams[i].1.len() {
                            self.bigrams[i].1.set(pf.vec_idx, flight);
                        }
                    },
                    None => {},
                }
                if pf.log_idx < self.log.len() {
                    let b = self.log[pf.log_idx].0;
                    self.log.set(pf.log_idx, (b, flight));
                }
                assert(self.groups() =~= group_log(self.log@));
            } else {
                self.pending_flight = Some(pf);
            }
        }
    }

    /// Records a backspace at `t`: a backspace event, the last typed character and the
    /// last logged interval dropped. Nothing happens when nothing has been typed.
    pub fn push_backspace(&mut self, t: u64)
        requires
            old(self).wf(),
        ensures
            final(self).wf(),
            backspaced(*old(self), *final(self), t),
    {
        if self.text.as_str().is_empty() {
            return;
        }
        let ghost log0 = self.log@;
        let ghost g0 = group_log(log0);
        let press_ms = millis_between(self.start_ns, t);
        let ghost ev0 = self.events@;
        self.events.push(KeyEvent { key: '\x08', keycode: 8, press_ms, release_ms: None });
        assert(self.events@.drop_last() =~= ev0);
        record_press(&mut self.pending_releases, &self.events);
        assert(self.log@ == log0 && self.log@.len() == self.log.len());
        let drop_flight = match &self.pending_flight {
            Some(pf) => pf.log_idx + 1 == self.log.len(),
            None => false,
        };
        if drop_flight {
            self.pending_flight = None;
        }
        pop_last_char(&mut self.text);
        match self.log.pop() {
            Some(entry) => {
                let bigram = entry.0;
                proof {
                    lemma_group_log_pop(log0);
                    lemma_group_log(log0);
                }
                match find_bigram(&self.bigrams, bigram) {
                    Some(i) => {
                        self.bigrams[i].1.pop();
                        if self.bigrams[i].1.len() == 0 {
                            self.bigrams.remove(i);
                            assert(self.groups() =~= g0.remove(i as int));
                        } else {
                            assert(self.groups() =~= g0.update(
                                i as int,
                                (bigram, g0[i as int].1.drop_last()),
                            ));
                        }
                    },
                    None => {},
                }
                self.last_char = Some(bigram.0);
            },
            None => {
                self.last_char = None;
            },
        }
        self.last_press = Some(t);
    }

    /// Records the release of a backspace at `t`.
    pub fn push_backspace_release(&mut self, t: u64)
        requires
            old(self).wf(),
        ensures
            final(self).wf(),
            released(*old(self), *final(self), '\x08', t),
    {
        self.push_release('\x08', t);
    }

    /// Starts over: an empty session started at `start_ns`.
    pub fn clear(&mut self, start_ns: u64)
        ensures
            final(self).wf(),
            final(self).fresh(start_ns),
    {
        *self = Session::new(start_ns);
    }
}

/// What a press of `ch` at `t` does to a session.
pub open spec fn pressed(pre: Session, post: Session, ch: char, keycode: u32, t: u64) -> bool {
    &&& post.events@ == pre.events@.push(
        KeyEvent {
            key: ch,
            keycode,
            press_ms: millis_since(pre.started_at(), t),
            release_ms: None,
        },
    )
    &&& match (pre.previous_char(), pre.previous_press()) {
        (Some(p), Some(pt)) => {
            &&& post.log@ == pre.log@.push(((p, ch), key_interval(pt, t)))
            &&& post.awaiting_flight() == Some((p, t))
        },
        _ => {
            &&& post.log@ == pre.log@
            &&& post.awaiting_flight() == pre.awaiting_flight()
        },
    }
    &&& post.previous_char() == Some(ch)
    &&& post.previous_press() == Some(t)
    &&& post.text@ == pre.text@
    &&& post.started_at() == pre.started_at()
}

/// What a release of `ch` at `t` does to a session.
pub open spec fn released(pre: Session, post: Session, ch: char, t: u64) -> bool {
    let i = latest_unreleased(pre.events@, ch);
    &&& post.events@ == (if i >= 0 {
        pre.events@.update(i, released_event(pre.events@[i], millis_since(pre.started_at(), t)))
    } else {
        pre.events@
    })
    &&& answers_flight(pre.awaiting_flight(), ch) ==> {
        &&& post.log@ == pre.log@.update(
            pre.log@.len() - 1,
            (pre.log@.last().0, flight_interval(pre.awaiting_flight().unwrap().1, t)),
        )
        &&& post.awaiting_flight() is None
    }
    &&& !answers_flight(pre.awaiting_flight(), ch) ==> {
        &&& post.log@ == pre.log@
        &&& post.awaiting_flight() == pre.awaiting_flight()
    }
    &&& post.previous_char() == pre.previous_char()
    &&& post.previous_press() == pre.previous_press()
    &&& post.text@ == pre.text@
    &&& post.started_at() == pre.started_at()
}

/// What a backspace at `t` does to a session.
pub open spec fn backspaced(pre: Session, post: Session, t: u64) -> bool {
    if pre.text@.len() == 0 {
        post == pre
    } else {
        &&& post.events@ == pre.events@.push(
            KeyEvent {
                key: '\x08',
                keycode: 8,
                press_ms: millis_since(pre.started_at(), t),
                release_ms: None,
            },
        )
        &&& post.text@ == pre.text@.drop_last()
        &&& post.log@ == (if pre.log@.len() > 0 {
            pre.log@.drop_last()
        } else {
            pre.log@
        })
        &&& post.previous_char() == (if pre.log@.len() > 0 {
            Some(pre.log@.last().0.0)
        } else {
            None
        })
        &&& post.previous_press() == Some(t)
        &&& post.awaiting_flight() is None
        &&& post.started_at() == pre.started_at()
    }
}

impl Session {
    /// The number of intervals recorded, over all bigrams.
    pub fn interval_count(&self) -> (r: usize)
        requires
            self.wf(),
        ensures
            r == self.log@.len(),
    {
        let ghost g = self.groups();
        proof {
            lemma_group_log(self.log@);
        }
        let mut total: usize = 0;
        let mut i: usize = 0;
        assert(self.log@.len() == self.log.len());
        assert(g.take(0) =~= Seq::<(Bigram, Seq<i128>)>::empty());
        while i < self.bigrams.len()
            invariant
                i <= self.bigrams.len(),
                g == self.groups(),
                total_samples(g) == self.log@.len(),
                self.log@.len() <= usize::MAX,
                total == total_samples(g.take(i as int)),
            decreases self.bigrams.len() - i,
        {
            proof {
                lemma_total_samples_prefix(g, i as int);
                assert(self.bigrams[i as int].1@.len() == g[i as int].1.len());
            }
            total = total + self.bigrams[i].1.len();
            i += 1;
        }
        assert(g.take(i as int) =~= g);
        total
    }

    /// Whether no interval has been recorded.
    pub fn is_empty(&self) -> (r: bool)
        requires
            self.wf(),
        ensures
            r == (self.log@.len() == 0),
    {
        proof {
            lemma_group_log_empty(self.log@);
        }
        self.bigrams.len() == 0
    }

    /// The number of distinct bigrams recorded.
    pub fn unique_bigram_count(&self) -> (r: usize)
        requires
            self.wf(),
        ensures
            r == self.groups().len(),
            r == log_bigrams(self.log@).len(),
    {
        proof {
            lemma_group_keys(self.log@);
        }
        self.bigrams.len()
    }
}

/// `post` is `pre` with `ch` appended to the typed text.
pub open spec fn typed(pre: Session, post: Session, ch: char) -> bool {
    &&& post.text@ == pre.text@.push(ch)
    &&& post.events == pre.events
    &&& post.bigrams == pre.bigrams
    &&& post.log == pre.log
    &&& post.start_ns == pre.start_ns
    &&& post.last_char == pre.last_char
    &&& post.last_press == pre.last_press
    &&& post.pending_releases == pre.pending_releases
    &&& post.pending_flight == pre.pending_flight
}

/// In a well-formed session the bigram table mirrors the log: each bigram holds, in
/// order, exactly the log's intervals for it, a bigram is listed exactly when the log
/// holds it, no bigram is listed twice, and the samples add up to the log's length.
pub proof fn law_bigrams_mirror_log(s: Session)
    requires
        s.wf(),
    ensures
        distinct_keys(s.groups()),
        forall|i: int|
            0 <= i < s.groups().len() ==> #[trigger] s.groups()[i].1 == samples_in_log(
                s.log@,
                s.groups()[i].0,
            ),
        forall|b: Bigram|
            index_of_key(s.groups(), b) == -1 <==> samples_in_log(s.log@, b).len() == 0,
        total_samples(s.groups()) == s.log@.len(),
        s.groups().len() == log_bigrams(s.log@).len(),
{
    lemma_group_log(s.log@);
    lemma_group_keys(s.log@);
}

/// A press, the typed character, then a backspace leave the typed text, the log, the
/// bigram table and the character that the next press pairs with as they were.
pub proof fn law_backspace_undoes_press(
    s0: Session,
    s1: Session,
    s2: Session,
    s3: Session,
    ch: char,
    keycode: u32,
    t: u64,
    t2: u64,
)
    requires
        s0.wf(),
        pressed(s0, s1, ch, keycode, t),
        typed(s1, s2, ch),
        backspaced(s2, s3, t2),
        s3.wf(),
    ensures
        s3.text@ == s0.text@,
        s3.log@ == s0.log@,
        s3.groups() == s0.groups(),
        s3.previous_char() == s0.previous_char(),
{
    assert(s2.text@.len() > 0);
    assert(s2.text@.drop_last() =~= s0.text@);
    match (s0.last_char, s0.last_press) {
        (Some(p), Some(pt)) => {
            assert(s2.log@.drop_last() =~= s0.log@);
        },
        _ => {
            assert(s0.log@.len() == 0);
        },
    }
}

/// The number of events that have been released.
pub open spec fn count_released(events: Seq<KeyEvent>) -> nat
    decreases events.len(),
{
    if events.len() == 0 {
        0
    } else {
        count_released(events.drop_last()) + if events.last().release_ms is Some {
            1nat
        } else {
            0nat
        }
    }
}

/// The number of events that are not backspaces.
pub open spec fn count_typed(events: Seq<KeyEvent>) -> nat
    decreases events.len(),
{
    if events.len() == 0 {
        0
    } else {
        count_typed(events.drop_last()) + if events.last().key != '\x08' {
            1nat
        } else {
            0nat
        }
    }
}

/// Milliseconds from the first press to the last, zero with fewer than two events or
/// when the last press is stamped earlier than the first.
pub open spec fn press_span(events: Seq<KeyEvent>) -> u64 {
    if events.len() < 2 {
        0
    } else if events.last().press_ms >= events[0].press_ms {
        (events.last().press_ms - events[0].press_ms) as u64
    } else {
        0
    }
}

/// Counts the released events.
pub fn released_count(events: &Vec<KeyEvent>) -> (r: usize)
    ensures
        r == count_released(events@),
{
    let mut n: usize = 0;
    let mut i: usize = 0;
    while i < events.len()
        invariant
            i <= events.len(),
            n == count_released(events@.take(i as int)),
            n <= i,
        decreases events.len() - i,
    {
        assert(events@.take(i + 1).drop_last() =~= events@.take(i as int));
        if events[i].release_ms.is_some() {
            n += 1;
        }
        i += 1;
    }
    assert(events@.take(i as int) =~= events@);
    n
}

/// Counts the events that are not backspaces.
pub fn typed_count(events: &Vec<KeyEvent>) -> (r: usize)
    ensures
        r == count_typed(events@),
{
    let mut n: usize = 0;
    let mut i: usize = 0;
    while i < events.len()
        invariant
            i <= events.len(),
            n == count_typed(events@.take(i as int)),
            n <= i,
        decreases events.len() - i,
    {
        assert(events@.take(i + 1).drop_last() =~= events@.take(i as int));
        if events[i].key != '\x08' {
            n += 1;
        }
        i += 1;
    }
    assert(events@.take(i as int) =~= events@);
    n
}

/// Milliseconds from the first press to the last (saturating at zero).
pub fn press_span_ms(events: &Vec<KeyEvent>) -> (r: u64)
    ensures
        r == press_span(events@),
{
    if events.len() < 2 {
        return 0;
    }
    let last = events[events.len() - 1].press_ms;
    let first = events[0].press_ms;
    last.saturating_sub(first)
}

impl Session {
    /// Milliseconds from the first event of the session to the last.
    pub fn elapsed_ms(&self) -> (r: u64)
        ensures
            r == press_span(self.events@),
    {
        press_span_ms(&self.events)
    }

    /// The length of the typed text in bytes.
    pub fn char_count(&self) -> (r: usize)
        ensures
            r == vstd::utf8::encode_utf8(self.text@).len() as usize,
    {
        self.text.as_str().len()
    }

    /// How many presses have been released.
    pub fn dwell_count(&self) -> (r: usize)
        ensures
            r == count_released(self.events@),
    {
        released_count(&self.events)
    }

    /// How many intervals each bigram holds, bigrams in order of first occurrence.
    pub fn bigram_counts(&self) -> (r: Vec<(Bigram, usize)>)
        ensures
            r@ == count_groups(self.groups()),
    {
        let ghost g = self.groups();
        let mut out: Vec<(Bigram, usize)> = Vec::new();
        let mut i: usize = 0;
        while i < self.bigrams.len()
            invariant
                i <= self.bigrams.len(),
                g == self.groups(),
                out@ == count_groups(g.take(i as int)),
            decreases self.bigrams.len() - i,
        {
            out.push((self.bigrams[i].0, self.bigrams[i].1.len()));
            assert(count_groups(g.take(i + 1)) =~= count_groups(g.take(i as int)).push(
                (g[i as int].0, g[i as int].1.len() as usize),
            ));
            i += 1;
        }
        assert(g.take(i as int) =~= g);
        out
    }
}

/// Each bigram with the number of its samples.
pub open spec fn count_groups(g: Seq<(Bigram, Seq<i128>)>) -> Seq<(Bigram, usize)> {
    g.map_values(|e: (Bigram, Seq<i128>)| (e.0, e.1.len() as usize))
}

/// A later instant never gets an earlier millisecond stamp, so a release stamped no
/// earlier than its press leaves a dwell time that is never negative.
pub proof fn law_millis_monotone(start: u64, t1: u64, t2: u64)
    requires
        t1 <= t2,
    ensures
        millis_since(start, t1) <= millis_since(start, t2),
{
    if t1 >= start {
        assert((t1 - start) / 1_000_000 <= (t2 - start) / 1_000_000) by (nonlinear_arith)
            requires
                t1 - start <= t2 - start,
                t1 >= start,
        ;
    }
}

/// How a character of the typed text is shown: a space as a middle dot.
pub open spec fn shown_as(c: char) -> char {
    if c == ' ' {
        '·'
    } else {
        c
    }
}

/// The character shown for `c`: a space becomes a middle dot, all else stays.
pub fn display_char(c: char) -> (r: char)
    ensures
        r == shown_as(c),
{
    if c == ' ' {
        '·'
    } else {
        c
    }
}

/// After a press of `ch` that follows `p`, the logged interval of the bigram `(p, ch)`
/// is the press-to-press time until `p` comes up, and then the flight time from that
/// release to the press of `ch`; a release of any other key leaves it as it was.
pub proof fn law_flight_replaces_press_interval(
    s0: Session,
    s1: Session,
    s2: Session,
    p: char,
    pt: u64,
    ch: char,
    keycode: u32,
    t: u64,
    released_key: char,
    t2: u64,
)
    requires
        s0.wf(),
        s0.previous_char() == Some(p),
        s0.previous_press() == Some(pt),
        pressed(s0, s1, ch, keycode, t),
        released(s1, s2, released_key, t2),
    ensures
        s1.log@ == s0.log@.push(((p, ch), key_interval(pt, t))),
        released_key == p ==> s2.log@ == s0.log@.push(((p, ch), flight_interval(t, t2))),
        released_key != p ==> s2.log@ == s1.log@,
{
    assert(s1.awaiting_flight() == Some((p, t)));
    if released_key == p {
        assert(s1.log@.update(s1.log@.len() - 1, (s1.log@.last().0, flight_interval(t, t2)))
            =~= s0.log@.push(((p, ch), flight_interval(t, t2))));
    }
}

/// The typed text and the log agree: the log holds one interval per pair of adjacent
/// typed characters, keyed by that pair, and the next press pairs with the last typed
/// character.
pub open spec fn text_matches_log(s: Session) -> bool {
    let t = s.text@;
    &&& s.previous_char() == (if t.len() > 0 {
        Some(t.last())
    } else {
        None
    })
    &&& s.log@.len() == (if t.len() > 0 {
        t.len() - 1
    } else {
        0
    })
    &&& forall|i: int| 0 <= i < s.log@.len() ==> #[trigger] s.log@[i].0 == (t[i], t[i + 1])
}

/// One step of a session as the demo drives it: a press followed by appending its
/// character to the text, a release, a backspace, or starting over.
pub open spec fn session_step(pre: Session, post: Session) -> bool {
    ||| exists|mid: Session, ch: char, keycode: u32, t: u64|
        pressed(pre, mid, ch, keycode, t) && typed(mid, post, ch)
    ||| exists|ch: char, t: u64| released(pre, post, ch, t)
    ||| exists|t: u64| backspaced(pre, post, t)
    ||| exists|start: u64| post.fresh(start)
}

/// A fresh session agrees with its (empty) text.
pub proof fn law_fresh_text_matches_log(s: Session, start: u64)
    requires
        s.fresh(start),
    ensures
        text_matches_log(s),
{
}

/// A press followed by appending its character keeps the text and the log in step.
pub proof fn law_press_keeps_text_and_log(
    s0: Session,
    s1: Session,
    s2: Session,
    ch: char,
    keycode: u32,
    t: u64,
)
    requires
        s0.wf(),
        text_matches_log(s0),
        pressed(s0, s1, ch, keycode, t),
        typed(s1, s2, ch),
    ensures
        text_matches_log(s2),
{
    let t0 = s0.text@;
    let t2 = s2.text@;
    assert(t2 == t0.push(ch));
    if t0.len() > 0 {
        let p = t0.last();
        let pt = s0.last_press.unwrap();
        assert(s2.log@ == s0.log@.push(((p, ch), key_interval(pt, t))));
        assert forall|i: int| 0 <= i < s2.log@.len() implies #[trigger] s2.log@[i].0 == (
            t2[i],
            t2[i + 1],
        ) by {
            if i < s0.log@.len() {
                assert(s2.log@[i] == s0.log@[i]);
                assert(s0.log@[i].0 == (t0[i], t0[i + 1]));
            }
        }
    } else {
        assert(s2.log@ == s0.log@);
    }
}

/// A release keeps the text and the log in step.
pub proof fn law_release_keeps_text_and_log(s0: Session, s1: Session, ch: char, t: u64)
    requires
        s0.wf(),
        text_matches_log(s0),
        released(s0, s1, ch, t),
    ensures
        text_matches_log(s1),
{
    if answers_flight(s0.awaiting_flight(), ch) {
        assert forall|i: int| 0 <= i < s1.log@.len() implies #[trigger] s1.log@[i].0 == (
            s1.text@[i],
            s1.text@[i + 1],
        ) by {
            assert(s0.log@[i].0 == (s0.text@[i], s0.text@[i + 1]));
        }
    }
}

/// A backspace keeps the text and the log in step.
pub proof fn law_backspace_keeps_text_and_log(s0: Session, s1: Session, t: u64)
    requires
        s0.wf(),
        text_matches_log(s0),
        backspaced(s0, s1, t),
    ensures
        text_matches_log(s1),
{
    let t0 = s0.text@;
    if t0.len() > 0 {
        let t1 = s1.text@;
        assert(t1 == t0.drop_last());
        if t0.len() >= 2 {
            assert(s0.log@.len() > 0);
            let n = s0.log@.len() - 1;
            assert(s0.log@[n].0 == (t0[n], t0[n + 1]));
            assert forall|i: int| 0 <= i < s1.log@.len() implies #[trigger] s1.log@[i].0 == (
                t1[i],
                t1[i + 1],
            ) by {
                assert(s1.log@[i] == s0.log@[i]);
                assert(s0.log@[i].0 == (t0[i], t0[i + 1]));
            }
        }
    }
}

/// In every session reached from a fresh one by presses (each followed by appending its
/// character to the text), releases, backspaces and restarts, the log holds exactly
/// one interval per pair of adjacent typed characters, keyed by the pair; so the
/// interval count is the text length less one (zero for an empty text), and each
/// bigram's samples are the log's intervals for it, in order.
pub proof fn law_text_and_log_in_step(pre: Session, post: Session)
    requires
        pre.wf(),
        text_matches_log(pre),
        session_step(pre, post),
        post.wf(),
    ensures
        text_matches_log(post),
        post.log@.len() == (if post.text@.len() > 0 {
            post.text@.len() - 1
        } else {
            0
        }),
        forall|i: int|
            0 <= i < post.log@.len() ==> #[trigger] post.log@[i].0 == (
                post.text@[i],
                post.text@[i + 1],
            ),
        forall|j: int|
            0 <= j < post.groups().len() ==> #[trigger] post.groups()[j].1 == samples_in_log(
                post.log@,
                post.groups()[j].0,
            ),
{
    if exists|mid: Session, ch: char, keycode: u32, t: u64|
        pressed(pre, mid, ch, keycode, t) && typed(mid, post, ch) {
        let (mid, ch, keycode, t) = choose|mid: Session, ch: char, keycode: u32, t: u64|
            pressed(pre, mid, ch, keycode, t) && typed(mid, post, ch);
        law_press_keeps_text_and_log(pre, mid, post, ch, keycode, t);
    } else if exists|ch: char, t: u64| released(pre, post, ch, t) {
        let (ch, t) = choose|ch: char, t: u64| released(pre, post, ch, t);
        law_release_keeps_text_and_log(pre, post, ch, t);
    } else if exists|t: u64| backspaced(pre, post, t) {
        let t = choose|t: u64| backspaced(pre, post, t);
        law_backspace_keeps_text_and_log(pre, post, t);
    } else {
        let start = choose|start: u64| post.fresh(start);
        law_fresh_text_matches_log(post, start);
    }
    law_bigrams_mirror_log(post);
}

/// The events that are not backspaces, in order.
pub open spec fn typed_events(events: Seq<KeyEvent>) -> Seq<KeyEvent> {
    events.filter(|e: KeyEvent| e.key != '\x08')
}

/// The features of a pair of consecutive typed keys, in milliseconds: the interval
/// from one press to the next, how long the first key was held (zero while it is
/// down), and the gap from its release to the next press (the press interval while it
/// is down).
pub open spec fn pair_features(a: KeyEvent, b: KeyEvent) -> (i128, i128, i128) {
    let iki = (b.press_ms - a.press_ms) as i128;
    match a.release_ms {
        Some(r) => (iki, (r - a.press_ms) as i128, (b.press_ms - r) as i128),
        None => (iki, 0, iki),
    }
}

/// The per-bigram features of a session: one triple for each pair of consecutive
/// typed (non-backspace) events.
pub open spec fn keystroke_features(events: Seq<KeyEvent>) -> Seq<(i128, i128, i128)> {
    let t = typed_events(events);
    Seq::new(
        if t.len() >= 1 {
            (t.len() - 1) as nat
        } else {
            0
        },
        |i: int| pair_features(t[i], t[i + 1]),
    )
}

/// Computes `pair_features`.
fn features_of(a: &KeyEvent, b: &KeyEvent) -> (r: (i128, i128, i128))
    ensures
        r == pair_features(*a, *b),
{
    let iki: i128 = b.press_ms as i128 - a.press_ms as i128;
    match a.release_ms {
        Some(r) => (iki, r as i128 - a.press_ms as i128, b.press_ms as i128 - r as i128),
        None => (iki, 0, iki),
    }
}

/// The features the embedding model reads: for each pair of consecutive typed
/// (non-backspace) events, press interval, dwell and flight in milliseconds.
/// Which events make the pairs is a choice of this library: every press that is not
/// a backspace counts, characters erased later included.
pub fn keystroke_sequence(events: &Vec<KeyEvent>) -> (r: Vec<(i128, i128, i128)>)
    ensures
        r@ == keystroke_features(events@),
{
    let ghost keep = |e: KeyEvent| e.key != '\x08';
    let mut typed: Vec<KeyEvent> = Vec::new();
    let mut i: usize = 0;
    assert(events@.take(0) =~= Seq::<KeyEvent>::empty());
    while i < events.len()
        invariant
            i <= events.len(),
            keep == (|e: KeyEvent| e.key != '\x08'),
            typed@ == events@.take(i as int).filter(keep),
        decreases events.len() - i,
    {
        proof {
            assert(events@.take(i + 1).drop_last() =~= events@.take(i as int));
            assert(events@.take(i + 1).last() == events@[i as int]);
            reveal_with_fuel(Seq::<_>::filter, 1);
        }
        if events[i].key != '\x08' {
            typed.push(events[i]);
        }
        i += 1;
    }
    assert(events@.take(i as int) =~= events@);
    assert(typed@ == typed_events(events@));
    let mut out: Vec<(i128, i128, i128)> = Vec::new();
    let mut j: usize = 1;
    while j < typed.len()
        invariant
            1 <= j,
            j <= typed.len() || typed.len() == 0,
            typed.len() == 0 ==> j == 1,
            typed@ == typed_events(events@),
            out@.len() == j - 1,
            forall|k: int| 0 <= k < out@.len() ==> #[trigger] out@[k] == pair_features(
                typed@[k],
                typed@[k + 1],
            ),
        decreases typed.len() - j,
    {
        out.push(features_of(&typed[j - 1], &typed[j]));
        j += 1;
    }
    proof {
        let f = keystroke_features(events@);
        let tt = typed_events(events@);
        assert(tt == typed@);
        assert(f.len() == (if tt.len() >= 1 { (tt.len() - 1) as nat } else { 0nat }));
        if typed@.len() >= 1 {
            assert(j == typed@.len());
        }
        assert(out@.len() == f.len());
        assert forall|k: int| 0 <= k < out@.len() implies out@[k] == f[k] by {}
        assert(out@ =~= f);
    }
    out
}

/// Splits the typed events at the last event.
proof fn lemma_typed_events_last(s: Seq<KeyEvent>)
    requires
        s.len() > 0,
    ensures
        typed_events(s) == (if s.last().key != '\x08' {
            typed_events(s.drop_last()).push(s.last())
        } else {
            typed_events(s.drop_last())
        }),
{
    reveal_with_fuel(Seq::<_>::filter, 1);
}

/// There are as many typed events as events that are not backspaces.
proof fn lemma_typed_events_len(s: Seq<KeyEvent>)
    ensures
        typed_events(s).len() == count_typed(s),
    decreases s.len(),
{
    if s.len() > 0 {
        lemma_typed_events_last(s);
        lemma_typed_events_len(s.drop_last());
    }
}

/// Counting the typed events of a longer prefix never gives fewer.
proof fn lemma_count_typed_prefix(s: Seq<KeyEvent>, a: int, b: int)
    requires
        0 <= a <= b <= s.len(),
    ensures
        count_typed(s.take(a)) <= count_typed(s.take(b)),
    decreases b - a,
{
    if a < b {
        assert(s.take(b).drop_last() =~= s.take(b - 1));
        lemma_count_typed_prefix(s, a, b - 1);
    }
}

/// Typed event `k` is the event at some position `p` that is not a backspace and has
/// exactly `k` typed events before it.
proof fn lemma_typed_event_at(s: Seq<KeyEvent>, k: int) -> (p: int)
    requires
        0 <= k < typed_events(s).len(),
    ensures
        0 <= p < s.len(),
        s[p].key != '\x08',
        count_typed(s.take(p)) == k,
        typed_events(s)[k] == s[p],
    decreases s.len(),
{
    let t = s.drop_last();
    lemma_typed_events_last(s);
    lemma_typed_events_len(t);
    if k < typed_events(t).len() {
        let p = lemma_typed_event_at(t, k);
        assert(s.take(p) =~= t.take(p));
        p
    } else {
        assert(s.take(s.len() - 1) =~= t);
        s.len() - 1
    }
}

/// Every event that is not a backspace, the space included, takes part in the
/// features: there is one triple fewer than there are such events (none without any).
pub proof fn law_features_count(events: Seq<KeyEvent>)
    ensures
        keystroke_features(events).len() == (if count_typed(events) >= 1 {
            count_typed(events) - 1
        } else {
            0
        }),
{
    lemma_typed_events_len(events);
}

/// Triple `i` of the features is built from the `i`-th and the `(i+1)`-th events that
/// are not backspaces, whatever characters they carry: the press interval between them;
/// while the first is down a dwell of zero and a flight equal to the interval, and once
/// it is up the time it was held and the gap from its release to the next press.
pub proof fn law_features_pair_neighbours(events: Seq<KeyEvent>, i: int)
    requires
        0 <= i < keystroke_features(events).len(),
    ensures
        exists|p: int, q: int|
            #![trigger events[p], events[q]]
            0 <= p < q < events.len() && events[p].key != '\x08' && events[q].key != '\x08'
                && count_typed(events.take(p)) == i && count_typed(events.take(q)) == i + 1
                && keystroke_features(events)[i].0 == events[q].press_ms - events[p].press_ms
                && match events[p].release_ms {
                Some(r) => keystroke_features(events)[i].1 == r - events[p].press_ms
                    && keystroke_features(events)[i].2 == events[q].press_ms - r,
                None => keystroke_features(events)[i].1 == 0 && keystroke_features(events)[i].2
                    == events[q].press_ms - events[p].press_ms,
            },
{
    let t = typed_events(events);
    let p = lemma_typed_event_at(events, i);
    let q = lemma_typed_event_at(events, i + 1);
    if q <= p {
        lemma_count_typed_prefix(events, q, p);
    }
    assert(keystroke_features(events)[i] == pair_features(t[i], t[i + 1]));
    assert(events[p] == t[i] && events[q] == t[i + 1]);
}

/// The time a session spans runs from its first press to its last, whatever lies
/// between: it is the span of those two presses alone, their difference when the last
/// is not stamped earlier, and zero when it is.
pub proof fn law_press_span_ends(events: Seq<KeyEvent>)
    requires
        events.len() >= 2,
    ensures
        press_span(events) == press_span(seq![events[0], events.last()]),
        events[0].press_ms <= events.last().press_ms ==> press_span(events) + events[0].press_ms
            == events.last().press_ms,
        events.last().press_ms < events[0].press_ms ==> press_span(events) == 0,
{
}

/// A press added after the last one, with presses in time order, lengthens the span by
/// the time since that last press.
pub proof fn law_press_span_grows(events: Seq<KeyEvent>, e: KeyEvent)
    requires
        events.len() >= 2,
        events[0].press_ms <= events.last().press_ms,
        events.last().press_ms <= e.press_ms,
    ensures
        press_span(events.push(e)) == press_span(events) + (e.press_ms - events.last().press_ms),
{
    assert(events.push(e)[0] == events[0]);
}

} // verus!
