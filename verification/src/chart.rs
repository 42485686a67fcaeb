//! What the charts lay out: the characters along the axes of the bigram chart, and the
//! order in which the profiles' points are drawn in the scatter plot.
use crate::grouping::Bigram;
use crate::roster::name_views;
use std::collections::BTreeSet;
use vstd::prelude::*;
use vstd::std_specs::btree::{group_btree_axioms, increasing_seq};
use vstd::std_specs::cmp::OrdSpec;
use vstd::std_specs::iter::IteratorSpec;

verus! {

/// `u32` keys follow the order of their values, in a set and in its walk.
proof fn lemma_u32_keys_ordered()
    ensures
        vstd::laws_cmp::obeys_cmp::<u32>(),
        vstd::std_specs::btree::key_obeys_cmp_spec::<u32>(),
        forall|s: Seq<&u32>| #[trigger] increasing_seq(s) ==> forall|i: int, j: int| 0 <= i < j < s.len() ==> *s[i] < *s[j],
{
    broadcast use group_btree_axioms;
    broadcast use vstd::laws_cmp::group_laws_cmp;
    assert(vstd::laws_cmp::obeys_cmp::<&u32>());
    assert forall|s: Seq<&u32>| #[trigger] increasing_seq(s) implies forall|i: int, j: int|
        0 <= i < j < s.len() ==> *s[i] < *s[j] by {
        vstd::std_specs::btree::axiom_increasing_seq_meaning::<&u32>(s);
        assert forall|i: int, j: int| 0 <= i < j < s.len() implies *s[i] < *s[j] by {
            assert(OrdSpec::cmp_spec(&s[i], &s[j]) is Less);
        }
    }
}

/// `c` is the code point of the first or the second character of `b`.
pub open spec fn touches(b: Bigram, c: u32) -> bool {
    b.0 as u32 == c || b.1 as u32 == c
}

/// `c` starts or ends one of the bigrams.
pub open spec fn on_axis(keys: Seq<Bigram>, c: u32) -> bool {
    exists|k: int| 0 <= k < keys.len() && touches(#[trigger] keys[k], c)
}

/// The code points of the characters of the bigrams, each once, ascending.
pub fn axis_codes(keys: &Vec<Bigram>) -> (r: Vec<u32>)
    ensures
        forall|i: int, j: int| 0 <= i < j < r@.len() ==> r@[i] < r@[j],
        forall|c: u32| r@.contains(c) <==> on_axis(keys@, c),
{
    broadcast use group_btree_axioms;
    proof {
        lemma_u32_keys_ordered();
    }
    let mut set: BTreeSet<u32> = BTreeSet::new();
    let mut i: usize = 0;
    while i < keys.len()
        invariant
            i <= keys.len(),
            forall|c: u32| set@.contains(c) <==> on_axis(keys@.take(i as int), c),
        decreases keys.len() - i,
    {
        let (a, b) = keys[i];
        set.insert(a as u32);
        set.insert(b as u32);
        proof {
            let t0 = keys@.take(i as int);
            let t1 = keys@.take(i + 1);
            assert forall|c: u32| set@.contains(c) <==> on_axis(t1, c) by {
                if on_axis(t1, c) {
                    let k = choose|k: int| 0 <= k < t1.len() && touches(#[trigger] t1[k], c);
                    if k < i {
                        assert(t0[k] == t1[k]);
                    } else {
                        assert(t1[k] == keys@[i as int]);
                    }
                }
                if on_axis(t0, c) {
                    let k = choose|k: int| 0 <= k < t0.len() && touches(#[trigger] t0[k], c);
                    assert(t1[k] == t0[k]);
                }
                if set@.contains(c) && !on_axis(t0, c) {
                    assert(t1[i as int] == keys@[i as int]);
                }
            }
        }
        i += 1;
    }
    assert(keys@.take(keys@.len() as int) =~= keys@);
    let mut r: Vec<u32> = Vec::new();
    for c in it: set.iter()
        invariant
            r@.len() == it.index(),
            forall|j: int| 0 <= j < r@.len() ==> r@[j] == *it.seq()[j],
            it.seq() == set.iter().remaining(),
    {
        r.push(*c);
    }
    proof {
        let walk = set.iter().remaining();
        assert(walk.unref().to_set() == set@);
        assert forall|c: u32| r@.contains(c) <==> set@.contains(c) by {
            if r@.contains(c) {
                let j = choose|j: int| 0 <= j < r@.len() && r@[j] == c;
                assert(walk.unref()[j] == c);
            }
            if set@.contains(c) {
                assert(walk.unref().contains(c));
                let j = choose|j: int| 0 <= j < walk.unref().len() && walk.unref()[j] == c;
                assert(r@[j] == c);
            }
        }
    }
    r
}

/// The last position of `name` among `names`, or -1.
pub open spec fn last_position(names: Seq<Seq<char>>, name: Seq<char>) -> int
    decreases names.len(),
{
    if names.len() == 0 {
        -1
    } else if names.last() == name {
        names.len() - 1
    } else {
        last_position(names.drop_last(), name)
    }
}

/// The rank by which a point is ordered: the last place of its name in the ranking,
/// or `usize::MAX` for a name that is not ranked.
pub open spec fn rank_key(ranked: Seq<Seq<char>>, name: Seq<char>) -> int {
    if last_position(ranked, name) >= 0 {
        last_position(ranked, name)
    } else {
        usize::MAX as int
    }
}

/// `a` comes no later than `b` in the order of pairs: by the first item, then the second.
pub open spec fn pair_le(a: (usize, usize), b: (usize, usize)) -> bool {
    a.0 < b.0 || (a.0 == b.0 && a.1 <= b.1)
}

/// Calls `slice::sort` on pairs, which orders them ascending, first by the first item and
/// then by the second, and keeps every pair as often as it was there.
#[verifier::external_body]
fn sort_pairs(v: &mut Vec<(usize, usize)>)
    ensures
        final(v)@.to_multiset() == old(v)@.to_multiset(),
        forall|i: int, j: int| 0 <= i < j < final(v)@.len() ==> pair_le(final(v)@[i], final(v)@[j]),
{
    v.sort();
}

/// The rank by which the point called `name` is ordered.
pub fn rank_of(ranked: &Vec<String>, name: &String) -> (r: usize)
    ensures
        r as int == rank_key(name_views(ranked@), name@),
{
    let ghost v = name_views(ranked@);
    let mut found: Option<usize> = None;
    let mut i: usize = 0;
    while i < ranked.len()
        invariant
            i <= ranked.len(),
            v == name_views(ranked@),
            match found {
                Some(k) => k as int == last_position(v.take(i as int), name@),
                None => last_position(v.take(i as int), name@) == -1,
            },
        decreases ranked.len() - i,
    {
        assert(v.take(i + 1).drop_last() =~= v.take(i as int));
        if ranked[i].eq(name) {
            found = Some(i);
        }
        i += 1;
    }
    assert(v.take(i as int) =~= v);
    match found {
        Some(k) => k,
        None => usize::MAX,
    }
}

/// The order in which the scatter plot draws its points: by the rank of each point's
/// name, points of equal rank in the order they came. The result lists every position
/// of `point_names` once.
pub fn scatter_order(point_names: &Vec<String>, ranked: &Vec<String>) -> (r: Vec<usize>)
    ensures
        r@.len() == point_names@.len(),
        r@.no_duplicates(),
        forall|k: int| 0 <= k < r@.len() ==> r@[k] < point_names@.len(),
        forall|k: int, l: int|
            #![trigger r@[k], r@[l]]
            0 <= k < l < r@.len() ==> {
                let a = rank_key(name_views(ranked@), point_names@[r@[k] as int]@);
                let b = rank_key(name_views(ranked@), point_names@[r@[l] as int]@);
                a < b || (a == b && r@[k] < r@[l])
            },
{
    let ghost key = |i: int| rank_key(name_views(ranked@), point_names@[i]@);
    let mut pairs: Vec<(usize, usize)> = Vec::new();
    let mut i: usize = 0;
    while i < point_names.len()
        invariant
            i <= point_names.len(),
            pairs@.len() == i,
            key == (|i: int| rank_key(name_views(ranked@), point_names@[i]@)),
            forall|k: int| #![trigger pairs@[k]] 0 <= k < i ==> pairs@[k].0 as int == key(k) && pairs@[k].1 == k,
        decreases point_names.len() - i,
    {
        let rank = rank_of(ranked, &point_names[i]);
        pairs.push((rank, i));
        assert(pairs@[i as int].0 as int == key(i as int));
        i += 1;
    }
    let ghost before = pairs@;
    proof {
        assert forall|k: int, l: int| 0 <= k < l < before.len() implies before[k] != before[l] by {
            assert(before[k].1 == k);
            assert(before[l].1 == l);
        }
        before.lemma_multiset_has_no_duplicates();
    }
    sort_pairs(&mut pairs);
    proof {
        broadcast use vstd::seq_lib::group_to_multiset_ensures;
        assert(pairs@.len() == before.len()) by {
            assert(pairs@.len() == pairs@.to_multiset().len());
            assert(before.len() == before.to_multiset().len());
        }
        pairs@.lemma_multiset_has_no_duplicates_conv();
        assert forall|k: int| 0 <= k < pairs@.len() implies #[trigger] before.contains(pairs@[k]) by {
            assert(pairs@.contains(pairs@[k]));
            assert(pairs@.to_multiset().count(pairs@[k]) > 0);
            assert(before.contains(pairs@[k]));
        }
    }
    let mut r: Vec<usize> = Vec::new();
    let mut j: usize = 0;
    while j < pairs.len()
        invariant
            j <= pairs@.len(),
            r@.len() == j,
            forall|k: int| 0 <= k < j ==> #[trigger] r@[k] == pairs@[k].1,
        decreases pairs.len() - j,
    {
        r.push(pairs[j].1);
        j += 1;
    }
    proof {
        assert forall|k: int| 0 <= k < r@.len() implies r@[k] < point_names@.len() && pairs@[k].0 as int
            == key(r@[k] as int) by {
            assert(before.contains(pairs@[k]));
            let i = choose|i: int| 0 <= i < before.len() && #[trigger] before[i] == pairs@[k];
            assert(before[i].1 == i);
        }
        assert forall|k: int, l: int| 0 <= k < l < r@.len() implies r@[k] != r@[l] by {
            assert(pairs@[k] != pairs@[l]);
        }
        assert forall|k: int, l: int|
            #![trigger r@[k], r@[l]]
            0 <= k < l < r@.len() implies {
                let a = rank_key(name_views(ranked@), point_names@[r@[k] as int]@);
                let b = rank_key(name_views(ranked@), point_names@[r@[l] as int]@);
                a < b || (a == b && r@[k] < r@[l])
            } by {
            assert(pair_le(pairs@[k], pairs@[l]));
            assert(pairs@[k] != pairs@[l]);
            assert(pairs@[k].0 as int == key(r@[k] as int));
            assert(pairs@[l].0 as int == key(r@[l] as int));
        }
    }
    r
}

} // verus!
