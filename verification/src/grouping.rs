//! The mathematical model of a typing log: the intervals of a session,
//! grouped by bigram in the order in which each bigram first occurs.
use vstd::prelude::*;

verus! {

/// A pair of consecutive characters.
pub type Bigram = (char, char);

/// Position of the last entry of `s` whose key is `k`, or -1 when there is none.
pub open spec fn index_of_key<K, V>(s: Seq<(K, V)>, k: K) -> int
    decreases s.len(),
{
    if s.len() == 0 {
        -1
    } else if s.last().0 == k {
        s.len() - 1
    } else {
        index_of_key(s.drop_last(), k)
    }
}

/// No two entries of `s` share a key.
pub open spec fn distinct_keys<K, V>(s: Seq<(K, V)>) -> bool {
    forall|i: int, j: int| 0 <= i < j < s.len() ==> s[i].0 != s[j].0
}

/// Adds one logged interval to a grouping: appended to the samples of its
/// bigram, or recorded under a new bigram at the end.
pub open spec fn group_step(g: Seq<(Bigram, Seq<i128>)>, e: (Bigram, i128)) -> Seq<(Bigram, Seq<i128>)> {
    let k = index_of_key(g, e.0);
    if k >= 0 {
        g.update(k, (e.0, g[k].1.push(e.1)))
    } else {
        g.push((e.0, seq![e.1]))
    }
}

/// The samples of a log, grouped by bigram, bigrams in order of first occurrence.
pub open spec fn group_log(log: Seq<(Bigram, i128)>) -> Seq<(Bigram, Seq<i128>)>
    decreases log.len(),
{
    if log.len() == 0 {
        seq![]
    } else {
        group_step(group_log(log.drop_last()), log.last())
    }
}

/// The values that `log` holds for bigram `b`, in log order.
pub open spec fn samples_in_log(log: Seq<(Bigram, i128)>, b: Bigram) -> Seq<i128>
    decreases log.len(),
{
    if log.len() == 0 {
        seq![]
    } else if log.last().0 == b {
        samples_in_log(log.drop_last(), b).push(log.last().1)
    } else {
        samples_in_log(log.drop_last(), b)
    }
}

/// The number of samples over all groups.
pub open spec fn total_samples(g: Seq<(Bigram, Seq<i128>)>) -> int
    decreases g.len(),
{
    if g.len() == 0 {
        0
    } else {
        total_samples(g.drop_last()) + g.last().1.len()
    }
}

/// The bigrams of a grouping, in order.
pub open spec fn group_keys(g: Seq<(Bigram, Seq<i128>)>) -> Seq<Bigram> {
    g.map_values(|e: (Bigram, Seq<i128>)| e.0)
}

/// The bigrams that occur in a log, as a set.
pub open spec fn log_bigrams(log: Seq<(Bigram, i128)>) -> Set<Bigram> {
    log.map_values(|e: (Bigram, i128)| e.0).to_set()
}

pub proof fn lemma_index_of_key<K, V>(s: Seq<(K, V)>, k: K)
    ensures
        -1 <= index_of_key(s, k) < s.len(),
        index_of_key(s, k) >= 0 ==> s[index_of_key(s, k)].0 == k,
        index_of_key(s, k) == -1 ==> forall|i: int| 0 <= i < s.len() ==> s[i].0 != k,
    decreases s.len(),
{
    if s.len() > 0 {
        lemma_index_of_key(s.drop_last(), k);
        assert forall|i: int| 0 <= i < s.len() - 1 implies s[i] == s.drop_last()[i] by {}
    }
}

/// With distinct keys, the position of a key is the one entry that holds it.
pub proof fn lemma_index_of_key_unique<K, V>(s: Seq<(K, V)>, k: K, j: int)
    requires
        distinct_keys(s),
        0 <= j < s.len(),
        s[j].0 == k,
    ensures
        index_of_key(s, k) == j,
{
    lemma_index_of_key(s, k);
}

pub proof fn lemma_total_samples_update(g: Seq<(Bigram, Seq<i128>)>, k: int, e: (Bigram, Seq<i128>))
    requires
        0 <= k < g.len(),
    ensures
        total_samples(g.update(k, e)) == total_samples(g) - g[k].1.len() + e.1.len(),
    decreases g.len(),
{
    let u = g.update(k, e);
    if k == g.len() - 1 {
        assert(u.drop_last() =~= g.drop_last());
    } else {
        lemma_total_samples_update(g.drop_last(), k, e);
        assert(u.drop_last() =~= g.drop_last().update(k, e));
    }
}

pub proof fn lemma_total_samples_push(g: Seq<(Bigram, Seq<i128>)>, e: (Bigram, Seq<i128>))
    ensures
        total_samples(g.push(e)) == total_samples(g) + e.1.len(),
{
    assert(g.push(e).drop_last() =~= g);
}

pub proof fn lemma_group_log_push(log: Seq<(Bigram, i128)>, e: (Bigram, i128))
    ensures
        group_log(log.push(e)) == group_step(group_log(log), e),
{
    assert(log.push(e).drop_last() =~= log);
}

pub proof fn lemma_samples_in_log_push(log: Seq<(Bigram, i128)>, e: (Bigram, i128), b: Bigram)
    ensures
        samples_in_log(log.push(e), b) == (if e.0 == b {
            samples_in_log(log, b).push(e.1)
        } else {
            samples_in_log(log, b)
        }),
{
    assert(log.push(e).drop_last() =~= log);
}

/// Everything a grouping of a log satisfies: its bigrams are distinct, each holds at
/// least one sample, each holds exactly the log's values for it, a bigram is present
/// exactly when the log holds it, and the samples add up to the log's length.
pub proof fn lemma_group_log(log: Seq<(Bigram, i128)>)
    ensures
        distinct_keys(group_log(log)),
        forall|i: int| 0 <= i < group_log(log).len() ==> #[trigger] group_log(log)[i].1.len() > 0,
        forall|i: int|
            0 <= i < group_log(log).len() ==> #[trigger] group_log(log)[i].1 == samples_in_log(
                log,
                group_log(log)[i].0,
            ),
        forall|b: Bigram|
            index_of_key(group_log(log), b) == -1 <==> samples_in_log(log, b).len() == 0,
        total_samples(group_log(log)) == log.len(),
        group_log(log).len() <= log.len(),
    decreases log.len(),
{
    if log.len() > 0 {
        let prev = log.drop_last();
        let e = log.last();
        lemma_group_log(prev);
        let g0 = group_log(prev);
        let g = group_log(log);
        assert(prev.push(e) =~= log);
        lemma_samples_in_log_push(prev, e, e.0);
        lemma_index_of_key(g0, e.0);
        let k = index_of_key(g0, e.0);
        if k >= 0 {
            assert(g == g0.update(k, (e.0, g0[k].1.push(e.1))));
            lemma_total_samples_update(g0, k, (e.0, g0[k].1.push(e.1)));
            assert forall|i: int| 0 <= i < g.len() implies #[trigger] g[i].1 == samples_in_log(
                log,
                g[i].0,
            ) by {
                lemma_samples_in_log_push(prev, e, g[i].0);
            }
            assert forall|b: Bigram| index_of_key(g, b) == -1 <==> samples_in_log(log, b).len() == 0 by {
                lemma_samples_in_log_push(prev, e, b);
                lemma_index_of_key(g, b);
                lemma_index_of_key(g0, b);
                if index_of_key(g0, b) >= 0 {
                    lemma_index_of_key_unique(g, b, index_of_key(g0, b));
                }
            }
        } else {
            assert(g == g0.push((e.0, seq![e.1])));
            lemma_total_samples_push(g0, (e.0, seq![e.1]));
            assert forall|i: int| 0 <= i < g.len() implies #[trigger] g[i].1 == samples_in_log(
                log,
                g[i].0,
            ) by {
                lemma_samples_in_log_push(prev, e, g[i].0);
                if i < g0.len() {
                    assert(g[i] == g0[i]);
                }
            }
            assert forall|b: Bigram| index_of_key(g, b) == -1 <==> samples_in_log(log, b).len() == 0 by {
                lemma_samples_in_log_push(prev, e, b);
                lemma_index_of_key(g, b);
                lemma_index_of_key(g0, b);
                if index_of_key(g0, b) >= 0 {
                    lemma_index_of_key_unique(g, b, index_of_key(g0, b));
                }
                if b == e.0 {
                    lemma_index_of_key_unique(g, b, g.len() - 1);
                }
            }
        }
    }
}

/// Rewriting the value of the last logged interval rewrites the last sample of its bigram.
pub proof fn lemma_group_log_set_last(log: Seq<(Bigram, i128)>, f: i128)
    requires
        log.len() > 0,
    ensures
        ({
            let b = log.last().0;
            let g = group_log(log);
            let k = index_of_key(g, b);
            &&& 0 <= k < g.len()
            &&& g[k].0 == b
            &&& g[k].1.len() > 0
            &&& g[k].1.last() == log.last().1
            &&& group_log(log.update(log.len() - 1, (b, f))) == g.update(
                k,
                (b, g[k].1.update(g[k].1.len() - 1, f)),
            )
        }),
{
    let b = log.last().0;
    let prev = log.drop_last();
    let log2 = log.update(log.len() - 1, (b, f));
    assert(log2.drop_last() =~= prev);
    assert(prev.push(log.last()) =~= log);
    lemma_group_log(prev);
    lemma_group_log(log);
    let g0 = group_log(prev);
    let g = group_log(log);
    lemma_index_of_key(g0, b);
    let j = index_of_key(g0, b);
    assert(group_log(log2) == group_step(g0, (b, f)));
    assert(g == group_step(g0, log.last()));
    if j >= 0 {
        lemma_index_of_key_unique(g, b, j);
        assert(g[j].1 == g0[j].1.push(log.last().1));
        assert(g[j].1.update(g[j].1.len() - 1, f) =~= g0[j].1.push(f));
        assert(group_log(log2) =~= g.update(j, (b, g[j].1.update(g[j].1.len() - 1, f))));
    } else {
        lemma_index_of_key_unique(g, b, g0.len() as int);
        assert(g[g0.len() as int].1 == seq![log.last().1]);
        assert(g[g0.len() as int].1.update(0, f) =~= seq![f]);
        assert(group_log(log2) =~= g.update(
            g0.len() as int,
            (b, g[g0.len() as int].1.update(0, f)),
        ));
    }
}

/// Dropping the last logged interval drops the last sample of its bigram, and the
/// bigram itself when that was its only sample.
pub proof fn lemma_group_log_pop(log: Seq<(Bigram, i128)>)
    requires
        log.len() > 0,
    ensures
        ({
            let b = log.last().0;
            let g = group_log(log);
            let k = index_of_key(g, b);
            &&& 0 <= k < g.len()
            &&& g[k].0 == b
            &&& g[k].1.len() > 0
            &&& g[k].1.len() == 1 ==> group_log(log.drop_last()) == g.remove(k)
            &&& g[k].1.len() > 1 ==> group_log(log.drop_last()) == g.update(
                k,
                (b, g[k].1.drop_last()),
            )
        }),
{
    let b = log.last().0;
    let prev = log.drop_last();
    assert(prev.push(log.last()) =~= log);
    lemma_group_log(prev);
    lemma_group_log(log);
    let g0 = group_log(prev);
    let g = group_log(log);
    lemma_index_of_key(g0, b);
    let j = index_of_key(g0, b);
    if j >= 0 {
        lemma_index_of_key_unique(g, b, j);
        assert(g0[j].1.len() > 0);
        assert(g == group_step(g0, log.last()));
        assert(g[j].1 == g0[j].1.push(log.last().1));
        assert(g[j].1.drop_last() =~= g0[j].1);
        assert(g0 =~= g.update(j, (b, g[j].1.drop_last())));
    } else {
        lemma_index_of_key_unique(g, b, g0.len() as int);
        assert(g0 =~= g.remove(g0.len() as int));
    }
}

pub proof fn lemma_total_samples_prefix(g: Seq<(Bigram, Seq<i128>)>, i: int)
    requires
        0 <= i < g.len(),
    ensures
        total_samples(g.take(i + 1)) == total_samples(g.take(i)) + g[i].1.len(),
        0 <= total_samples(g.take(i + 1)) <= total_samples(g),
    decreases g.len(),
{
    assert(g.take(i + 1).drop_last() =~= g.take(i));
    lemma_total_samples_nonneg(g.take(i));
    if i + 1 < g.len() {
        lemma_total_samples_prefix(g.drop_last(), i);
        assert(g.drop_last().take(i + 1) =~= g.take(i + 1));
        assert(g.drop_last().take(i) =~= g.take(i));
    } else {
        assert(g.take(i + 1) =~= g);
    }
}

pub proof fn lemma_total_samples_nonneg(g: Seq<(Bigram, Seq<i128>)>)
    ensures
        total_samples(g) >= 0,
        g.len() > 0 && g.last().1.len() > 0 ==> total_samples(g) > 0,
    decreases g.len(),
{
    if g.len() > 0 {
        lemma_total_samples_nonneg(g.drop_last());
    }
}

/// A log and its grouping are empty together.
pub proof fn lemma_group_log_empty(log: Seq<(Bigram, i128)>)
    ensures
        (group_log(log).len() == 0) == (log.len() == 0),
{
    lemma_group_log(log);
    let g = group_log(log);
    lemma_total_samples_nonneg(g);
    if g.len() > 0 {
        assert(g[g.len() - 1].1.len() > 0);
    }
}

/// The bigrams of the grouping are exactly the distinct bigrams of the log.
pub proof fn lemma_group_keys(log: Seq<(Bigram, i128)>)
    ensures
        group_keys(group_log(log)).no_duplicates(),
        group_keys(group_log(log)).to_set() == log_bigrams(log),
        group_log(log).len() == log_bigrams(log).len(),
{
    let g = group_log(log);
    let ks = group_keys(g);
    lemma_group_log(log);
    assert forall|i: int, j: int| 0 <= i < ks.len() && 0 <= j < ks.len() && i != j implies ks[i]
        != ks[j] by {
        if i < j {
            assert(g[i].0 != g[j].0);
        } else {
            assert(g[j].0 != g[i].0);
        }
    }
    let lb = log.map_values(|e: (Bigram, i128)| e.0);
    assert forall|b: Bigram| ks.contains(b) <==> lb.contains(b) by {
        lemma_index_of_key(g, b);
        lemma_samples_in_log_contains(log, b);
        if ks.contains(b) {
            let i = choose|i: int| 0 <= i < ks.len() && ks[i] == b;
            lemma_index_of_key_unique(g, b, i);
            assert(g[i].1.len() > 0);
            let j = choose|j: int| 0 <= j < log.len() && log[j].0 == b;
            assert(lb[j] == b);
        }
        if lb.contains(b) {
            let i = choose|i: int| 0 <= i < lb.len() && lb[i] == b;
            assert(log[i].0 == b);
            let k = index_of_key(g, b);
            assert(ks[k] == b);
        }
    }
    assert(ks.to_set() =~= log_bigrams(log));
    ks.unique_seq_to_set();
}

/// A bigram has samples exactly when some logged interval is under it.
pub proof fn lemma_samples_in_log_contains(log: Seq<(Bigram, i128)>, b: Bigram)
    ensures
        samples_in_log(log, b).len() > 0 <==> exists|i: int| 0 <= i < log.len() && log[i].0 == b,
    decreases log.len(),
{
    if log.len() > 0 {
        let d = log.drop_last();
        lemma_samples_in_log_contains(d, b);
        if exists|i: int| 0 <= i < d.len() && d[i].0 == b {
            let i = choose|i: int| 0 <= i < d.len() && d[i].0 == b;
            assert(log[i] == d[i]);
        }
        if exists|i: int| 0 <= i < log.len() && log[i].0 == b {
            let i = choose|i: int| 0 <= i < log.len() && log[i].0 == b;
            if i < d.len() {
                assert(d[i] == log[i]);
            }
        }
    }
}

} // verus!
