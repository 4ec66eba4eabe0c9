//! Column names: lists of them, and the set in which the join remembers those that it has seen.
use vstd::prelude::*;

use polars_utils::aliases::{InitHashMaps, PlHashSet};

verus! {

/// The names in a list of strings.
pub open spec fn text(names: Seq<String>) -> Seq<Seq<char>> {
    names.map_values(|name: String| name@)
}

/// `name` stands at position `p` of the list, and nowhere before.
pub open spec fn first_at(names: Seq<Seq<char>>, name: Seq<char>, p: int) -> bool {
    &&& 0 <= p < names.len()
    &&& names[p] == name
    &&& forall|q: int| 0 <= q < p ==> #[trigger] names[q] != name
}

/// The first position of a name in a list that holds it.
pub open spec fn position_of(names: Seq<Seq<char>>, name: Seq<char>) -> int {
    choose|p: int| first_at(names, name, p)
}

/// A name that a list holds has a first position in it.
pub proof fn lemma_position(names: Seq<Seq<char>>, name: Seq<char>)
    requires
        names.contains(name),
    ensures
        first_at(names, name, position_of(names, name)),
{
    let p = choose|p: int| 0 <= p < names.len() && names[p] == name;
    lemma_first(names, name, p);
}

proof fn lemma_first(names: Seq<Seq<char>>, name: Seq<char>, p: int)
    requires
        0 <= p < names.len(),
        names[p] == name,
    ensures
        exists|q: int| first_at(names, name, q),
    decreases p,
{
    if !first_at(names, name, p) {
        let q = choose|q: int| 0 <= q < p && #[trigger] names[q] == name;
        lemma_first(names, name, q);
    }
}

/// Finds the first position of a name.
pub fn find_name(names: &[String], name: &String) -> (found: Option<usize>)
    ensures
        match found {
            Some(p) => first_at(text(names@), name@, p as int) && p == position_of(
                text(names@),
                name@,
            ),
            None => !text(names@).contains(name@),
        },
{
    let mut i: usize = 0;
    while i < names.len()
        invariant
            i <= names@.len(),
            forall|q: int| 0 <= q < i ==> #[trigger] text(names@)[q] != name@,
        decreases names@.len() - i,
    {
        assert(text(names@)[i as int] == names@[i as int]@);
        if names[i] == *name {
            assert(first_at(text(names@), name@, i as int));
            return Some(i);
        }
        i += 1;
    }
    None
}

/// A set of names.
///
/// It holds a `polars_utils::aliases::PlHashSet`.
#[verifier::external_body]
pub struct NameSet {
    names: PlHashSet<String>,
}

/// The names in a set.
pub uninterp spec fn names_in(set: NameSet) -> Set<Seq<char>>;

/// `PlHashSet::new`: the empty set.
#[verifier::external_body]
pub(crate) fn empty_set() -> (set: NameSet)
    ensures
        names_in(set) == Set::<Seq<char>>::empty(),
{
    NameSet { names: PlHashSet::new() }
}

/// `PlHashSet::insert`: puts a name into the set and tells whether it was not there before.
#[verifier::external_body]
pub(crate) fn insert_name(set: &mut NameSet, name: &String) -> (new: bool)
    ensures
        new == !names_in(*old(set)).contains(name@),
        names_in(*final(set)) == names_in(*old(set)).insert(name@),
{
    set.names.insert(name.clone())
}

} // verus!
