//! Sets of names that remember the order of insertion.

use vstd::prelude::*;
use indexmap::IndexSet;

verus! {

/// `indexmap::IndexSet`, of which only the names that a set holds are spoken
/// of, by [`names_of`].
#[verifier::external_type_specification]
#[verifier::external_body]
#[verifier::reject_recursive_types(T)]
#[verifier::reject_recursive_types(S)]
pub struct ExIndexSet<T, S>(IndexSet<T, S>);

/// The names that a set holds, in the order in which they were inserted.
pub uninterp spec fn names_of(set: IndexSet<String>) -> Seq<Seq<char>>;

/// `IndexSet::new`: a set that holds no name.
#[verifier::external_body]
pub(crate) fn name_set_new() -> (set: IndexSet<String>)
    ensures
        names_of(set) == Seq::<Seq<char>>::empty(),
{
    IndexSet::new()
}

/// `IndexSet::insert_full`. A name that the set lacks is put last, and its
/// position is returned with `true`. For a name that the set holds, the set
/// stays as it is, and the position of that name is returned with `false`.
#[verifier::external_body]
pub(crate) fn name_set_insert(set: &mut IndexSet<String>, name: &str) -> (r: (usize, bool))
    ensures
        r.1 ==> !names_of(*old(set)).contains(name@) && names_of(*final(set)) == names_of(*old(set)).push(name@)
            && r.0 == names_of(*old(set)).len(),
        !r.1 ==> names_of(*final(set)) == names_of(*old(set)) && r.0 < names_of(*old(set)).len() && names_of(
            *old(set),
        )[r.0 as int] == name@,
{
    set.insert_full(name.to_owned())
}

/// `IndexSet::get_index_of`: the position of a name in the set, or `None`
/// where the set lacks the name.
#[verifier::external_body]
pub(crate) fn name_set_index_of(set: &IndexSet<String>, name: &str) -> (r: Option<usize>)
    ensures
        match r {
            Some(i) => i < names_of(*set).len() && names_of(*set)[i as int] == name@,
            None => !names_of(*set).contains(name@),
        },
{
    set.get_index_of(name)
}

} // verus!
