//! How enrolling a session again adds its per-bigram counts to a profile's.
use vstd::prelude::*;

use crate::controller::byte_len;
use crate::typing::{count_released, Session};
use crate::grouping::{
    distinct_keys, index_of_key, lemma_index_of_key, lemma_index_of_key_unique, Bigram,
};

verus! {

/// The count that `s` holds for `b`, zero when `b` is not listed.
pub open spec fn count_of(s: Seq<(Bigram, usize)>, b: Bigram) -> int {
    let k = index_of_key(s, b);
    if k >= 0 {
        s[k].1 as int
    } else {
        0
    }
}

proof fn lemma_count_of_take(s: Seq<(Bigram, usize)>, i: int, b: Bigram)
    requires
        distinct_keys(s),
        0 <= i < s.len(),
    ensures
        count_of(s.take(i + 1), b) == count_of(s.take(i), b) + if s[i].0 == b {
            s[i].1 as int
        } else {
            0
        },
        s[i].0 == b ==> count_of(s.take(i), b) == 0,
{
    let t1 = s.take(i + 1);
    let t0 = s.take(i);
    assert(t1.drop_last() =~= t0);
    assert(t1.last() == s[i]);
    lemma_index_of_key(t0, b);
    if s[i].0 == b {
        assert(index_of_key(t0, b) == -1) by {
            if index_of_key(t0, b) >= 0 {
                assert(s[index_of_key(t0, b)].0 == b);
            }
        }
    }
}

proof fn lemma_count_of_full(s: Seq<(Bigram, usize)>, b: Bigram)
    ensures
        count_of(s.take(s.len() as int), b) == count_of(s, b),
{
    assert(s.take(s.len() as int) =~= s);
}

/// Adds the counts of `added` to those of `counts`: a bigram already listed has its
/// count increased in place, a new one is appended with its count.
pub fn merge_counts(counts: &mut Vec<(Bigram, usize)>, added: &Vec<(Bigram, usize)>)
    requires
        distinct_keys(old(counts)@),
        distinct_keys(added@),
        forall|b: Bigram| count_of(old(counts)@, b) + count_of(added@, b) <= usize::MAX,
    ensures
        distinct_keys(final(counts)@),
        forall|b: Bigram| #[trigger]
            count_of(final(counts)@, b) == count_of(old(counts)@, b) + count_of(added@, b),
        final(counts)@.len() >= old(counts)@.len(),
        forall|i: int| 0 <= i < old(counts)@.len() ==> #[trigger] final(counts)@[i].0 == old(counts)@[i].0,
        forall|i: int|
            0 <= i < final(counts)@.len() ==> index_of_key(old(counts)@, #[trigger] final(counts)@[i].0)
                >= 0 || index_of_key(added@, final(counts)@[i].0) >= 0,
{
    let ghost c0 = counts@;
    let mut i: usize = 0;
    assert(added@.take(0) =~= Seq::<(Bigram, usize)>::empty());
    assert forall|j: int| 0 <= j < counts@.len() implies index_of_key(c0, #[trigger] counts@[j].0)
        >= 0 by {
        lemma_index_of_key_unique(c0, c0[j].0, j);
    }
    while i < added.len()
        invariant
            i <= added.len(),
            distinct_keys(added@),
            distinct_keys(counts@),
            forall|b: Bigram| count_of(c0, b) + count_of(added@, b) <= usize::MAX,
            forall|b: Bigram|
                #[trigger] count_of(counts@, b) == count_of(c0, b) + count_of(added@.take(i as int), b),
            counts@.len() >= c0.len(),
            forall|j: int| 0 <= j < c0.len() ==> #[trigger] counts@[j].0 == c0[j].0,
            forall|j: int|
                0 <= j < counts@.len() ==> index_of_key(c0, #[trigger] counts@[j].0) >= 0 || index_of_key(
                    added@,
                    counts@[j].0,
                ) >= 0,
        decreases added.len() - i,
    {
        let b = added[i].0;
        let n = added[i].1;
        let ghost before = counts@;
        proof {
            lemma_count_of_take(added@, i as int, b);
            lemma_count_of_full(added@, b);
            lemma_count_of_take(added@, i as int, b);
            lemma_index_of_key(before, b);
            assert(count_of(added@, b) >= n) by {
                lemma_index_of_key_unique(added@, b, i as int);
            }
        }
        let mut k: usize = 0;
        let mut found = false;
        while k < counts.len()
            invariant_except_break
                counts@ == before,
                k <= counts.len(),
                !found,
                forall|j: int| 0 <= j < k ==> #[trigger] counts@[j].0 != b,
            ensures
                counts@ == before,
                found ==> k < counts.len() && counts@[k as int].0 == b,
                !found ==> forall|j: int| 0 <= j < counts@.len() ==> #[trigger] counts@[j].0 != b,
            decreases counts.len() - k,
        {
            if (counts[k].0).0 == b.0 && (counts[k].0).1 == b.1 {
                found = true;
                break;
            }
            k += 1;
        }
        if found {
            proof {
                lemma_index_of_key_unique(before, b, k as int);
            }
            let m = counts[k].1;
            proof {
                assert(count_of(before, b) == m as int);
                assert(count_of(before, b) == count_of(c0, b) + count_of(added@.take(i as int), b));
                assert(count_of(added@.take(i as int), b) == 0);
                lemma_index_of_key_unique(added@, b, i as int);
                assert(count_of(added@, b) == n as int);
                assert(count_of(c0, b) + count_of(added@, b) <= usize::MAX);
            }
            counts.set(k, (b, m + n));
            proof {
                assert forall|j: int| 0 <= j < counts@.len() implies #[trigger] counts@[j].0 == before[j].0 by {}
                assert(distinct_keys(counts@));
                assert forall|a: Bigram| #[trigger] count_of(counts@, a) == count_of(c0, a) + count_of(
                    added@.take(i + 1),
                    a,
                ) by {
                    lemma_count_of_take(added@, i as int, a);
                    lemma_index_of_key(before, a);
                    assert(count_of(before, a) == count_of(c0, a) + count_of(
                        added@.take(i as int),
                        a,
                    ));
                    if a == b {
                        lemma_index_of_key_unique(counts@, a, k as int);
                    } else if index_of_key(before, a) >= 0 {
                        let k0 = index_of_key(before, a);
                        assert(counts@[k0] == before[k0]);
                        lemma_index_of_key_unique(counts@, a, k0);
                    } else {
                        lemma_index_of_key(counts@, a);
                        if index_of_key(counts@, a) >= 0 {
                            assert(before[index_of_key(counts@, a)].0 == a);
                        }
                    }
                }
            }
        } else {
            counts.push((b, n));
            proof {
                lemma_index_of_key_unique(added@, b, i as int);
                assert forall|j: int| 0 <= j < counts@.len() implies index_of_key(
                    c0,
                    #[trigger] counts@[j].0,
                ) >= 0 || index_of_key(added@, counts@[j].0) >= 0 by {
                    if j < before.len() {
                        assert(counts@[j] == before[j]);
                    }
                }
                if index_of_key(before, b) >= 0 {
                    assert(before[index_of_key(before, b)].0 == b);
                }
                assert(index_of_key(before, b) == -1);
                assert(distinct_keys(counts@));
                assert forall|a: Bigram| #[trigger] count_of(counts@, a) == count_of(c0, a) + count_of(
                    added@.take(i + 1),
                    a,
                ) by {
                    lemma_count_of_take(added@, i as int, a);
                    lemma_index_of_key(before, a);
                    assert(count_of(before, a) == count_of(c0, a) + count_of(
                        added@.take(i as int),
                        a,
                    ));
                    if a == b {
                        lemma_index_of_key_unique(counts@, a, before.len() as int);
                        lemma_index_of_key_unique(added@, b, i as int);
                    } else if index_of_key(before, a) >= 0 {
                        let k0 = index_of_key(before, a);
                        assert(counts@[k0] == before[k0]);
                        lemma_index_of_key_unique(counts@, a, k0);
                    } else {
                        lemma_index_of_key(counts@, a);
                        if index_of_key(counts@, a) >= 0 {
                            let k1 = index_of_key(counts@, a);
                            if k1 < before.len() {
                                assert(before[k1].0 == a);
                            }
                        }
                    }
                }
            }
        }
        i += 1;
    }
    proof {
        assert forall|b: Bigram| #[trigger] count_of(counts@, b) == count_of(c0, b) + count_of(added@, b) by {
            lemma_count_of_full(added@, b);
        }
    }
}

/// The number of earlier intervals a bigram's stored average stands for: its count,
/// or one when the profile has no count for it.
pub fn prior_count(counts: &Vec<(Bigram, usize)>, b: Bigram) -> (r: usize)
    ensures
        r == (if index_of_key(counts@, b) >= 0 {
            counts@[index_of_key(counts@, b)].1
        } else {
            1
        }),
{
    let mut i = counts.len();
    assert(counts@.take(i as int) =~= counts@);
    while i > 0
        invariant
            i <= counts.len(),
            index_of_key(counts@.take(i as int), b) == index_of_key(counts@, b),
        decreases i,
    {
        assert(counts@.take(i as int).drop_last() =~= counts@.take(i - 1));
        assert(counts@.take(i as int).last() == counts@[i - 1]);
        if (counts[i - 1].0).0 == b.0 && (counts[i - 1].0).1 == b.1 {
            return counts[i - 1].1;
        }
        i -= 1;
    }
    1
}

/// Adds a session's typed bytes, intervals and released presses to a profile's totals.
pub fn add_session_totals(
    char_count: &mut usize,
    interval_count: &mut usize,
    dwell_count: &mut usize,
    session: &Session,
)
    requires
        session.wf(),
        *old(char_count) + byte_len(session.text@) <= usize::MAX,
        *old(interval_count) + session.log@.len() <= usize::MAX,
        *old(dwell_count) + count_released(session.events@) <= usize::MAX,
    ensures
        *final(char_count) == *old(char_count) + byte_len(session.text@),
        *final(interval_count) == *old(interval_count) + session.log@.len(),
        *final(dwell_count) == *old(dwell_count) + count_released(session.events@),
{
    *char_count = *char_count + session.char_count();
    *interval_count = *interval_count + session.interval_count();
    *dwell_count = *dwell_count + session.dwell_count();
}

} // verus!
