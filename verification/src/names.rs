//! Lists of names: what they read as, and where a name stands in one.

use vstd::prelude::*;

verus! {

/// The texts of a list of strings.
pub open spec fn names_of(v: Seq<String>) -> Seq<Seq<char>> {
    Seq::new(v.len(), |i: int| v[i]@)
}

/// `name` stands somewhere in `names`.
pub open spec fn occurs(names: Seq<Seq<char>>, name: Seq<char>) -> bool {
    exists|i: int| 0 <= i < names.len() && #[trigger] names[i] == name
}

/// `i` is the first place at which `name` stands in `names`.
pub open spec fn is_first_index(names: Seq<Seq<char>>, name: Seq<char>, i: int) -> bool {
    &&& 0 <= i < names.len()
    &&& names[i] == name
    &&& forall|j: int| 0 <= j < i ==> #[trigger] names[j] != name
}

/// The first place at which `name` stands in `names`; meaningful where it occurs.
pub open spec fn first_index(names: Seq<Seq<char>>, name: Seq<char>) -> int {
    choose|i: int| is_first_index(names, name, i)
}

/// A name has at most one first place.
pub proof fn lemma_first_index_unique(names: Seq<Seq<char>>, name: Seq<char>, i: int, j: int)
    requires
        is_first_index(names, name, i),
        is_first_index(names, name, j),
    ensures
        i == j,
{
}

/// Where a name has a first place, `first_index` is that place.
pub proof fn lemma_first_index_is(names: Seq<Seq<char>>, name: Seq<char>, i: int)
    requires
        is_first_index(names, name, i),
    ensures
        first_index(names, name) == i,
        occurs(names, name),
{
    lemma_first_index_unique(names, name, i, first_index(names, name));
}

/// Finds the first place of `name` in `names`.
pub fn position(names: &[String], name: &String) -> (r: Option<usize>)
    ensures
        match r {
            Some(i) => is_first_index(names_of(names@), name@, i as int),
            None => !occurs(names_of(names@), name@),
        },
{
    let n: usize = names.len();
    let mut i: usize = 0;
    while i < n
        invariant
            i <= n,
            n == names@.len(),
            forall|j: int| 0 <= j < i ==> #[trigger] names_of(names@)[j] != name@,
        decreases n - i,
    {
        if names[i] == *name {
            return Some(i);
        }
        i = i + 1;
    }
    None
}

/// Says whether `name` stands in `names`.
pub fn contains_name(names: &[String], name: &String) -> (r: bool)
    ensures
        r == occurs(names_of(names@), name@),
{
    match position(names, name) {
        Some(_) => true,
        None => false,
    }
}

/// Copies a list of names.
pub fn clone_names(names: &[String]) -> (r: Vec<String>)
    ensures
        names_of(r@) == names_of(names@),
{
    let n: usize = names.len();
    let mut out: Vec<String> = Vec::new();
    let mut i: usize = 0;
    while i < n
        invariant
            i <= n,
            n == names@.len(),
            out@.len() == i,
            forall|j: int| 0 <= j < i ==> out@[j]@ == names@[j]@,
        decreases n - i,
    {
        out.push(names[i].clone());
        i = i + 1;
    }
    out
}

} // verus!
