//! Releases matched to presses: for each key that is down, a stack of its presses
//! that wait for their release; a release answers the latest of them.
use vstd::prelude::*;

use crate::grouping::{distinct_keys, index_of_key, lemma_index_of_key, lemma_index_of_key_unique};
use crate::typing::KeyEvent;

verus! {

/// Event `i` is a press of `c` that has not been released yet.
pub open spec fn unreleased(events: Seq<KeyEvent>, i: int, c: char) -> bool {
    0 <= i < events.len() && events[i].key == c && events[i].release_ms is None
}

/// The most recent press of `c` that has not been released, or -1 when there is none.
pub open spec fn latest_unreleased(events: Seq<KeyEvent>, c: char) -> int
    decreases events.len(),
{
    if events.len() == 0 {
        -1
    } else if events.last().key == c && events.last().release_ms is None {
        events.len() - 1
    } else {
        latest_unreleased(events.drop_last(), c)
    }
}

pub proof fn lemma_latest_unreleased(events: Seq<KeyEvent>, c: char, m: int)
    requires
        unreleased(events, m, c),
        forall|j: int| m < j < events.len() ==> !unreleased(events, j, c),
    ensures
        latest_unreleased(events, c) == m,
    decreases events.len(),
{
    if m < events.len() - 1 {
        let d = events.drop_last();
        assert(!unreleased(events, events.len() - 1, c));
        assert forall|j: int| m < j < d.len() implies !unreleased(d, j, c) by {
            assert(d[j] == events[j]);
            assert(!unreleased(events, j, c));
        }
        assert(d[m] == events[m]);
        lemma_latest_unreleased(d, c, m);
    }
}

pub proof fn lemma_latest_unreleased_none(events: Seq<KeyEvent>, c: char)
    requires
        forall|j: int| 0 <= j < events.len() ==> !unreleased(events, j, c),
    ensures
        latest_unreleased(events, c) == -1,
    decreases events.len(),
{
    if events.len() > 0 {
        let d = events.drop_last();
        assert(!unreleased(events, events.len() - 1, c));
        assert forall|j: int| 0 <= j < d.len() implies !unreleased(d, j, c) by {
            assert(d[j] == events[j]);
            assert(!unreleased(events, j, c));
        }
        lemma_latest_unreleased_none(d, c);
    }
}

/// A stack of pending presses of `c`: increasing event indices, each an unreleased press of `c`.
pub open spec fn stack_matches(s: Seq<usize>, events: Seq<KeyEvent>, c: char) -> bool {
    &&& s.len() > 0
    &&& forall|i: int, j: int| 0 <= i < j < s.len() ==> s[i] < s[j]
    &&& forall|m: int| 0 <= m < s.len() ==> #[trigger] unreleased(events, s[m] as int, c)
}

/// The presses that await their release, one stack per key, and every unreleased
/// press on the stack of its key.
pub open spec fn releases_wf(pr: Seq<(char, Seq<usize>)>, events: Seq<KeyEvent>) -> bool {
    &&& distinct_keys(pr)
    &&& forall|k: int| 0 <= k < pr.len() ==> #[trigger] stack_matches(pr[k].1, events, pr[k].0)
    &&& forall|i: int|
        0 <= i < events.len() && #[trigger] events[i].release_ms is None ==> {
            let k = index_of_key(pr, events[i].key);
            k >= 0 && pr[k].1.contains(i as usize)
        }
}

/// The stacks as a model: each key with the sequence of its pending presses.
pub open spec fn stacks_view(pr: Seq<(char, Vec<usize>)>) -> Seq<(char, Seq<usize>)> {
    pr.map_values(|e: (char, Vec<usize>)| (e.0, e.1@))
}

/// Where the stack of key `c` stands.
fn find_stack(pr: &Vec<(char, Vec<usize>)>, c: char) -> (r: Option<usize>)
    ensures
        r matches Some(i) ==> i as int == index_of_key(stacks_view(pr@), c),
        r is None ==> index_of_key(stacks_view(pr@), c) == -1,
{
    let ghost g = stacks_view(pr@);
    let mut i = pr.len();
    assert(g.take(i as int) =~= g);
    while i > 0
        invariant
            i <= pr.len(),
            g == stacks_view(pr@),
            index_of_key(g.take(i as int), c) == index_of_key(g, c),
        decreases i,
    {
        assert(g.take(i as int).drop_last() =~= g.take(i - 1));
        assert(g.take(i as int).last() == g[i - 1]);
        if pr[i - 1].0 == c {
            return Some(i - 1);
        }
        i -= 1;
    }
    None
}

proof fn lemma_releases_extend(s0: Seq<(char, Seq<usize>)>, ev: Seq<KeyEvent>, s: Seq<(char, Seq<usize>)>)
    requires
        0 < ev.len() <= usize::MAX,
        ev.last().release_ms is None,
        releases_wf(s0, ev.drop_last()),
        ({
            let k = index_of_key(s0, ev.last().key);
            let n = (ev.len() - 1) as usize;
            if k >= 0 {
                s == s0.update(k, (s0[k].0, s0[k].1.push(n)))
            } else {
                s == s0.push((ev.last().key, seq![n]))
            }
        }),
    ensures
        releases_wf(s, ev),
{
    let ev0 = ev.drop_last();
    let n = ev.len() - 1;
    let ch = ev.last().key;
    let k = index_of_key(s0, ch);
    lemma_index_of_key(s0, ch);
    assert forall|i: int, c: char| unreleased(ev0, i, c) implies unreleased(ev, i, c) by {
        assert(ev0[i] == ev[i]);
    }
    assert forall|j: int, m: int| 0 <= j < s0.len() && 0 <= m < s0[j].1.len() implies #[trigger] s0[j].1[m]
        < n by {
        assert(stack_matches(s0[j].1, ev0, s0[j].0));
        assert(unreleased(ev0, s0[j].1[m] as int, s0[j].0));
    }
    if k >= 0 {
        assert(distinct_keys(s));
        assert forall|j: int| 0 <= j < s.len() implies #[trigger] stack_matches(s[j].1, ev, s[j].0) by {
            assert(stack_matches(s0[j].1, ev0, s0[j].0));
            if j == k {
                let t = s0[k].1;
                assert(s[j].1 == t.push(n as usize));
                assert forall|m: int| 0 <= m < s[j].1.len() implies #[trigger] unreleased(
                    ev,
                    s[j].1[m] as int,
                    s[j].0,
                ) by {
                    if m < t.len() {
                        assert(unreleased(ev0, t[m] as int, s0[k].0));
                    } else {
                        assert(s[j].1[m] == n as usize);
                        assert(s0[k].0 == ch);
                        assert(unreleased(ev, n, ch));
                    }
                }
            } else {
                assert forall|m: int| 0 <= m < s[j].1.len() implies #[trigger] unreleased(
                    ev,
                    s[j].1[m] as int,
                    s[j].0,
                ) by {
                    assert(unreleased(ev0, s0[j].1[m] as int, s0[j].0));
                }
            }
        }
        assert forall|i: int| 0 <= i < ev.len() && #[trigger] ev[i].release_ms is None implies {
            let kk = index_of_key(s, ev[i].key);
            kk >= 0 && s[kk].1.contains(i as usize)
        } by {
            if i == n {
                lemma_index_of_key_unique(s, ch, k);
                assert(s[k].1.last() == n as usize);
            } else {
                assert(ev0[i] == ev[i]);
                let k0 = index_of_key(s0, ev0[i].key);
                lemma_index_of_key(s0, ev0[i].key);
                lemma_index_of_key_unique(s, ev0[i].key, k0);
                let m = choose|m: int| 0 <= m < s0[k0].1.len() && s0[k0].1[m] == i as usize;
                assert(s[k0].1[m] == i as usize);
            }
        }
    } else {
        assert forall|a: int, b: int| 0 <= a < b < s.len() implies s[a].0 != s[b].0 by {
            if b == s0.len() {
                assert(s0[a].0 != ch);
            } else {
                assert(s[a] == s0[a] && s[b] == s0[b]);
            }
        }
        assert forall|j: int| 0 <= j < s.len() implies #[trigger] stack_matches(s[j].1, ev, s[j].0) by {
            if j < s0.len() {
                assert(s[j] == s0[j]);
                assert(stack_matches(s0[j].1, ev0, s0[j].0));
                assert forall|m: int| 0 <= m < s[j].1.len() implies #[trigger] unreleased(
                    ev,
                    s[j].1[m] as int,
                    s[j].0,
                ) by {
                    assert(unreleased(ev0, s0[j].1[m] as int, s0[j].0));
                }
            } else {
                assert(s[j].1 == seq![n as usize]);
                assert(s[j].0 == ch);
                assert(unreleased(ev, n, ch));
                assert forall|m: int| 0 <= m < s[j].1.len() implies #[trigger] unreleased(
                    ev,
                    s[j].1[m] as int,
                    s[j].0,
                ) by {
                    assert(m == 0);
                }
            }
        }
        assert forall|i: int| 0 <= i < ev.len() && #[trigger] ev[i].release_ms is None implies {
            let kk = index_of_key(s, ev[i].key);
            kk >= 0 && s[kk].1.contains(i as usize)
        } by {
            if i == n {
                lemma_index_of_key_unique(s, ch, s0.len() as int);
                assert(s[s0.len() as int].1[0] == n as usize);
            } else {
                assert(ev0[i] == ev[i]);
                let k0 = index_of_key(s0, ev0[i].key);
                lemma_index_of_key(s0, ev0[i].key);
                assert(s[k0] == s0[k0]);
                lemma_index_of_key_unique(s, ev0[i].key, k0);
            }
        }
    }
}

/// Puts the newest event, an unreleased press, on the stack of its key.
pub(crate) fn record_press(pr: &mut Vec<(char, Vec<usize>)>, events: &Vec<KeyEvent>)
    requires
        events@.len() > 0,
        events@.last().release_ms is None,
        releases_wf(stacks_view(old(pr)@), events@.drop_last()),
    ensures
        releases_wf(stacks_view(final(pr)@), events@),
{
    let idx = events.len() - 1;
    let ch = events[idx].key;
    let ghost s0 = stacks_view(pr@);
    proof {
        lemma_index_of_key(s0, ch);
    }
    match find_stack(pr, ch) {
        Some(k) => {
            pr[k].1.push(idx);
            assert(stacks_view(pr@) =~= s0.update(k as int, (s0[k as int].0, s0[k as int].1.push(idx))));
        },
        None => {
            let mut v: Vec<usize> = Vec::new();
            v.push(idx);
            pr.push((ch, v));
            assert(stacks_view(pr@) =~= s0.push((ch, seq![idx])));
        },
    }
    proof {
        lemma_releases_extend(s0, events@, stacks_view(pr@));
    }
}

/// The event after its release at `ms`.
pub open spec fn released_event(e: KeyEvent, ms: u64) -> KeyEvent {
    KeyEvent { key: e.key, keycode: e.keycode, press_ms: e.press_ms, release_ms: Some(ms) }
}

proof fn lemma_releases_pop(s0: Seq<(char, Seq<usize>)>, ev: Seq<KeyEvent>, k: int, ms: u64)
    requires
        releases_wf(s0, ev),
        0 <= k < s0.len(),
        ev.len() <= usize::MAX,
    ensures
        s0[k].1.len() > 0,
        latest_unreleased(ev, s0[k].0) == s0[k].1.last() as int,
        ({
            let t = s0[k].1;
            let m = t.last() as int;
            let ev2 = ev.update(m, released_event(ev[m], ms));
            &&& 0 <= m < ev.len()
            &&& t.len() > 1 ==> releases_wf(s0.update(k, (s0[k].0, t.drop_last())), ev2)
            &&& t.len() == 1 ==> releases_wf(s0.remove(k), ev2)
        }),
{
    let ch = s0[k].0;
    let t = s0[k].1;
    assert(stack_matches(t, ev, ch));
    let m = t.last() as int;
    assert(unreleased(ev, t[t.len() - 1] as int, ch));
    lemma_index_of_key_unique(s0, ch, k);
    assert forall|j: int| m < j < ev.len() implies !unreleased(ev, j, ch) by {
        if unreleased(ev, j, ch) {
            assert(ev[j].release_ms is None);
            assert(index_of_key(s0, ev[j].key) == k);
            let q = choose|q: int| 0 <= q < t.len() && t[q] == j as usize;
            if q < t.len() - 1 {
                assert(t[q] < t[t.len() - 1]);
            }
        }
    }
    lemma_latest_unreleased(ev, ch, m);
    let ev2 = ev.update(m, released_event(ev[m], ms));
    // every stacked press other than `m` keeps its event
    assert forall|j: int, q: int|
        0 <= j < s0.len() && 0 <= q < s0[j].1.len() && !(j == k && q == t.len() - 1) implies #[trigger] unreleased(
        ev2,
        s0[j].1[q] as int,
        s0[j].0,
    ) by {
        assert(stack_matches(s0[j].1, ev, s0[j].0));
        assert(unreleased(ev, s0[j].1[q] as int, s0[j].0));
        if j == k {
            assert(s0[j].1[q] < t[t.len() - 1]);
        } else {
            assert(s0[j].0 != ch);
        }
        assert(s0[j].1[q] as int != m);
    }
    if t.len() > 1 {
        let s = s0.update(k, (ch, t.drop_last()));
        assert(distinct_keys(s));
        assert forall|j: int| 0 <= j < s.len() implies #[trigger] stack_matches(s[j].1, ev2, s[j].0) by {
            assert(stack_matches(s0[j].1, ev, s0[j].0));
            assert forall|q: int| 0 <= q < s[j].1.len() implies #[trigger] unreleased(
                ev2,
                s[j].1[q] as int,
                s[j].0,
            ) by {
                assert(s[j].1[q] == s0[j].1[q]);
            }
        }
        assert forall|i: int| 0 <= i < ev2.len() && #[trigger] ev2[i].release_ms is None implies {
            let kk = index_of_key(s, ev2[i].key);
            kk >= 0 && s[kk].1.contains(i as usize)
        } by {
            assert(i != m);
            assert(ev2[i] == ev[i]);
            assert(ev[i].release_ms is None);
            let k0 = index_of_key(s0, ev[i].key);
            lemma_index_of_key(s0, ev[i].key);
            lemma_index_of_key_unique(s, ev[i].key, k0);
            let q = choose|q: int| 0 <= q < s0[k0].1.len() && s0[k0].1[q] == i as usize;
            if k0 == k {
                assert(q != t.len() - 1);
                assert(s[k0].1[q] == i as usize);
            } else {
                assert(s[k0].1[q] == i as usize);
            }
        }
    } else {
        let s = s0.remove(k);
        assert forall|a: int, b: int| 0 <= a < b < s.len() implies s[a].0 != s[b].0 by {
            let a0 = if a < k { a } else { a + 1 };
            let b0 = if b < k { b } else { b + 1 };
            assert(s[a] == s0[a0] && s[b] == s0[b0]);
        }
        assert forall|j: int| 0 <= j < s.len() implies #[trigger] stack_matches(s[j].1, ev2, s[j].0) by {
            let j0 = if j < k { j } else { j + 1 };
            assert(s[j] == s0[j0]);
            assert(stack_matches(s0[j0].1, ev, s0[j0].0));
            assert forall|q: int| 0 <= q < s[j].1.len() implies #[trigger] unreleased(
                ev2,
                s[j].1[q] as int,
                s[j].0,
            ) by {
                assert(s[j].1[q] == s0[j0].1[q]);
            }
        }
        assert forall|i: int| 0 <= i < ev2.len() && #[trigger] ev2[i].release_ms is None implies {
            let kk = index_of_key(s, ev2[i].key);
            kk >= 0 && s[kk].1.contains(i as usize)
        } by {
            assert(i != m);
            assert(ev2[i] == ev[i]);
            assert(ev[i].release_ms is None);
            let k0 = index_of_key(s0, ev[i].key);
            lemma_index_of_key(s0, ev[i].key);
            let q = choose|q: int| 0 <= q < s0[k0].1.len() && s0[k0].1[q] == i as usize;
            assert(k0 != k);
            let k1 = if k0 < k { k0 } else { k0 - 1 };
            assert(s[k1] == s0[k0]);
            lemma_index_of_key_unique(s, ev[i].key, k1);
            assert(s[k1].1[q] == i as usize);
        }
    }
}

/// Marks the latest unreleased press of `ch` as released at `ms`; nothing changes when
/// every press of `ch` has been released already.
pub(crate) fn release_press(pr: &mut Vec<(char, Vec<usize>)>, events: &mut Vec<KeyEvent>, ch: char, ms: u64)
    requires
        releases_wf(stacks_view(old(pr)@), old(events)@),
    ensures
        releases_wf(stacks_view(final(pr)@), final(events)@),
        ({
            let i = latest_unreleased(old(events)@, ch);
            final(events)@ == if i >= 0 {
                old(events)@.update(i, released_event(old(events)@[i], ms))
            } else {
                old(events)@
            }
        }),
{
    let ghost s0 = stacks_view(pr@);
    let ghost ev = events@;
    proof {
        lemma_index_of_key(s0, ch);
    }
    match find_stack(pr, ch) {
        Some(k) => {
            proof {
                assert(ev.len() == events.len());
                lemma_releases_pop(s0, ev, k as int, ms);
            }
            let popped = pr[k].1.pop();
            if let Some(idx) = popped {
                if idx < events.len() {
                    let e = events[idx];
                    events.set(
                        idx,
                        KeyEvent {
                            key: e.key,
                            keycode: e.keycode,
                            press_ms: e.press_ms,
                            release_ms: Some(ms),
                        },
                    );
                }
            }
            if pr[k].1.len() == 0 {
                pr.remove(k);
                assert(stacks_view(pr@) =~= s0.remove(k as int));
            } else {
                assert(stacks_view(pr@) =~= s0.update(
                    k as int,
                    (s0[k as int].0, s0[k as int].1.drop_last()),
                ));
            }
        },
        None => {
            proof {
                assert forall|j: int| 0 <= j < ev.len() implies !unreleased(ev, j, ch) by {
                    if unreleased(ev, j, ch) {
                        assert(ev[j].release_ms is None);
                    }
                }
                lemma_latest_unreleased_none(ev, ch);
            }
        },
    }
}


} // verus!
