//! Column names: lists of strings and their models.

use vstd::prelude::*;

verus! {

/// The texts of a list of strings.
pub open spec fn str_views(names: Seq<String>) -> Seq<Seq<char>> {
    Seq::new(names.len(), |i: int| names[i]@)
}

/// Whether `name` occurs in `names`.
pub fn contains_name(names: &Vec<String>, name: &String) -> (res: bool)
    ensures
        res == str_views(names@).contains(name@),
{
    let mut i: usize = 0;
    while i < names.len()
        invariant
            i <= names@.len(),
            forall|j: int| 0 <= j < i ==> str_views(names@)[j] != name@,
        decreases names@.len() - i,
    {
        if names[i] == *name {
            assert(str_views(names@)[i as int] == name@);
            return true;
        }
        i += 1;
    }
    false
}

/// Copies a list of strings.
pub fn clone_names(names: &Vec<String>) -> (res: Vec<String>)
    ensures
        str_views(res@) == str_views(names@),
{
    let mut out: Vec<String> = Vec::new();
    let mut i: usize = 0;
    while i < names.len()
        invariant
            i <= names@.len(),
            out@.len() == i,
            forall|j: int| 0 <= j < i ==> out@[j]@ == names@[j]@,
        decreases names@.len() - i,
    {
        out.push(names[i].clone());
        i += 1;
    }
    assert(str_views(out@) =~= str_views(names@));
    out
}

/// Whether every name of `names` occurs in `among`.
pub open spec fn all_in(names: Seq<Seq<char>>, among: Seq<Seq<char>>) -> bool {
    forall|i: int| 0 <= i < names.len() ==> among.contains(#[trigger] names[i])
}

/// Whether some name of `names` occurs in `among`.
pub open spec fn any_in(names: Seq<Seq<char>>, among: Seq<Seq<char>>) -> bool {
    exists|i: int| 0 <= i < names.len() && among.contains(#[trigger] names[i])
}

/// Whether every name of `names` occurs in `among`.
pub fn names_all_in(names: &Vec<String>, among: &Vec<String>) -> (res: bool)
    ensures
        res == all_in(str_views(names@), str_views(among@)),
{
    let mut i: usize = 0;
    while i < names.len()
        invariant
            i <= names@.len(),
            forall|j: int|
                0 <= j < i ==> str_views(among@).contains(#[trigger] str_views(names@)[j]),
        decreases names@.len() - i,
    {
        if !contains_name(among, &names[i]) {
            assert(str_views(names@)[i as int] == names@[i as int]@);
            return false;
        }
        i += 1;
    }
    true
}

/// Whether some name of `names` occurs in `among`.
pub fn names_any_in(names: &Vec<String>, among: &Vec<String>) -> (res: bool)
    ensures
        res == any_in(str_views(names@), str_views(among@)),
{
    let mut i: usize = 0;
    while i < names.len()
        invariant
            i <= names@.len(),
            forall|j: int|
                0 <= j < i ==> !str_views(among@).contains(#[trigger] str_views(names@)[j]),
        decreases names@.len() - i,
    {
        if contains_name(among, &names[i]) {
            assert(str_views(names@)[i as int] == names@[i as int]@);
            return true;
        }
        i += 1;
    }
    false
}

} // verus!
