//! Profiles looked up by name: the profile a new session of a typist joins, and which
//! demo profiles are not enrolled already.
use vstd::prelude::*;

verus! {

/// The first position of `name` among `names`, or -1.
pub open spec fn first_position(names: Seq<Seq<char>>, name: Seq<char>) -> int
    decreases names.len(),
{
    if names.len() == 0 {
        -1
    } else if names[0] == name {
        0
    } else {
        let rest = first_position(names.drop_first(), name);
        if rest >= 0 {
            rest + 1
        } else {
            -1
        }
    }
}

pub open spec fn name_views(names: Seq<String>) -> Seq<Seq<char>> {
    names.map_values(|s: String| s@)
}

proof fn lemma_first_position(names: Seq<Seq<char>>, name: Seq<char>, i: int)
    requires
        0 <= i <= names.len(),
        forall|j: int| 0 <= j < i ==> names[j] != name,
    ensures
        i < names.len() && names[i] == name ==> first_position(names, name) == i,
        i == names.len() ==> first_position(names, name) == -1,
    decreases i,
{
    if i > 0 {
        let rest = names.drop_first();
        assert forall|j: int| 0 <= j < i - 1 implies rest[j] != name by {
            assert(rest[j] == names[j + 1]);
        }
        lemma_first_position(rest, name, i - 1);
        if i < names.len() {
            assert(rest[i - 1] == names[i]);
        }
    }
}

/// The first profile called `name`, if any.
pub fn position_of_name(names: &Vec<String>, name: &String) -> (r: Option<usize>)
    ensures
        r matches Some(i) ==> i as int == first_position(name_views(names@), name@),
        r is None ==> first_position(name_views(names@), name@) == -1,
{
    let ghost v = name_views(names@);
    let mut i: usize = 0;
    while i < names.len()
        invariant
            i <= names.len(),
            v == name_views(names@),
            forall|j: int| 0 <= j < i ==> v[j] != name@,
        decreases names.len() - i,
    {
        if names[i].eq(name) {
            proof {
                lemma_first_position(v, name@, i as int);
            }
            return Some(i);
        }
        i += 1;
    }
    proof {
        lemma_first_position(v, name@, i as int);
    }
    None
}

/// The positions of the candidates whose name no enrolled profile has, in order.
pub fn unenrolled(candidates: &Vec<String>, enrolled: &Vec<String>) -> (r: Vec<usize>)
    ensures
        r@ == Seq::new(candidates@.len(), |i: int| i as usize).filter(
            |i: usize| !name_views(enrolled@).contains(candidates@[i as int]@),
        ),
        forall|k: int| 0 <= k < r@.len() ==> r@[k] < candidates@.len(),
{
    let ghost all = Seq::new(candidates@.len(), |i: int| i as usize);
    let ghost keep = |i: usize| !name_views(enrolled@).contains(candidates@[i as int]@);
    let mut out: Vec<usize> = Vec::new();
    let mut i: usize = 0;
    assert(all.take(0) =~= Seq::<usize>::empty());
    while i < candidates.len()
        invariant
            i <= candidates.len(),
            all == Seq::new(candidates@.len(), |i: int| i as usize),
            keep == (|i: usize| !name_views(enrolled@).contains(candidates@[i as int]@)),
            out@ == all.take(i as int).filter(keep),
            forall|k: int| 0 <= k < out@.len() ==> out@[k] < i,
        decreases candidates.len() - i,
    {
        let known = position_of_name(enrolled, &candidates[i]).is_some();
        proof {
            let ev = name_views(enrolled@);
            let c = candidates@[i as int]@;
            if known {
                lemma_first_position_found(ev, c);
                assert(ev.contains(c));
            } else {
                assert(!ev.contains(c)) by {
                    if ev.contains(c) {
                        let j = choose|j: int| 0 <= j < ev.len() && ev[j] == c;
                        lemma_first_position_found(ev, c);
                        lemma_first_position_none(ev, c, j);
                    }
                }
            }
            assert(all.take(i + 1).drop_last() =~= all.take(i as int));
            assert(all.take(i + 1).last() == i as usize);
            reveal_with_fuel(Seq::<_>::filter, 1);
        }
        if !known {
            out.push(i);
        }
        i += 1;
    }
    assert(all.take(i as int) =~= all);
    out
}

proof fn lemma_first_position_found(names: Seq<Seq<char>>, name: Seq<char>)
    ensures
        first_position(names, name) >= 0 ==> 0 <= first_position(names, name) < names.len()
            && names[first_position(names, name)] == name,
    decreases names.len(),
{
    if names.len() > 0 && names[0] != name {
        let rest = names.drop_first();
        lemma_first_position_found(rest, name);
        if first_position(rest, name) >= 0 {
            assert(names[first_position(rest, name) + 1] == rest[first_position(rest, name)]);
        }
    }
}

proof fn lemma_first_position_none(names: Seq<Seq<char>>, name: Seq<char>, j: int)
    requires
        0 <= j < names.len(),
        names[j] == name,
    ensures
        first_position(names, name) >= 0,
    decreases names.len(),
{
    if names[0] != name {
        let rest = names.drop_first();
        assert(rest[j - 1] == names[j]);
        lemma_first_position_none(rest, name, j - 1);
    }
}

/// What `str::to_lowercase` gives for a text: the text in Unicode lower case, where one
/// character may become several and a capital sigma depends on its neighbours.
pub uninterp spec fn lowercase(s: Seq<char>) -> Seq<char>;

/// `needle` stands somewhere in `haystack` as a run of consecutive characters.
pub open spec fn has_infix(haystack: Seq<char>, needle: Seq<char>) -> bool {
    exists|i: int| 0 <= i <= haystack.len() - needle.len() && #[trigger] haystack.subrange(i, i + needle.len()) == needle
}

/// A profile is shown under a search when the lower-cased query is empty or stands
/// in its name.
pub open spec fn matches_query(name: Seq<char>, query: Seq<char>) -> bool {
    query.len() == 0 || has_infix(name, query)
}

/// Calls `str::to_lowercase`; its result is named `lowercase` of the text.
#[verifier::external_body]
fn to_lower(s: &str) -> (r: String)
    ensures
        r@ == lowercase(s@),
{
    s.to_lowercase()
}

/// Calls `str::contains` with a `&str` pattern, which is true exactly when the
/// pattern's characters stand consecutively in the text (the empty pattern always does).
#[verifier::external_body]
fn contains_text(haystack: &str, needle: &str) -> (r: bool)
    ensures
        r == has_infix(haystack@, needle@),
{
    haystack.contains(needle)
}

/// The positions of the names that `query`, already lower-cased, selects, in order.
pub fn positions_matching(names: &Vec<String>, query: &String) -> (r: Vec<usize>)
    ensures
        r@ == Seq::new(names@.len(), |i: int| i as usize).filter(
            |i: usize| matches_query(names@[i as int]@, query@),
        ),
        forall|k: int| 0 <= k < r@.len() ==> r@[k] < names@.len(),
{
    let ghost all = Seq::new(names@.len(), |i: int| i as usize);
    let ghost keep = |i: usize| matches_query(names@[i as int]@, query@);
    let empty = query.as_str().is_empty();
    let mut out: Vec<usize> = Vec::new();
    let mut i: usize = 0;
    assert(all.take(0) =~= Seq::<usize>::empty());
    while i < names.len()
        invariant
            i <= names.len(),
            empty == (query@.len() == 0),
            all == Seq::new(names@.len(), |i: int| i as usize),
            keep == (|i: usize| matches_query(names@[i as int]@, query@)),
            out@ == all.take(i as int).filter(keep),
            forall|k: int| 0 <= k < out@.len() ==> out@[k] < i,
        decreases names.len() - i,
    {
        let shown = empty || contains_text(names[i].as_str(), query.as_str());
        proof {
            assert(all.take(i + 1).drop_last() =~= all.take(i as int));
            assert(all.take(i + 1).last() == i as usize);
            reveal_with_fuel(Seq::<_>::filter, 1);
        }
        if shown {
            out.push(i);
        }
        i += 1;
    }
    assert(all.take(i as int) =~= all);
    out
}

/// The positions of the names that the search text selects, in order: the search
/// is lower-cased, and a name is kept when that is empty or stands in the name.
pub fn search_names(names: &Vec<String>, search: &str) -> (r: Vec<usize>)
    ensures
        r@ == Seq::new(names@.len(), |i: int| i as usize).filter(
            |i: usize| matches_query(names@[i as int]@, lowercase(search@)),
        ),
        forall|k: int| 0 <= k < r@.len() ==> r@[k] < names@.len(),
{
    let query = to_lower(search);
    positions_matching(names, &query)
}

} // verus!
