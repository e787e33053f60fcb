use vstd::prelude::*;
use indexmap::IndexSet;
use crate::shard::swap_removed;

verus! {

/// Declares the insertion-ordered hash set of the `indexmap` crate.
#[verifier::external_type_specification]
#[verifier::external_body]
#[verifier::reject_recursive_types(T)]
#[verifier::reject_recursive_types(S)]
pub struct ExIndexSet<T, S>(IndexSet<T, S>);

/// The items of an insertion-ordered set of integer keys, in their order.
pub uninterp spec fn index_set_items(set: IndexSet<u64>) -> Seq<u64>;

/// `IndexSet::new`: an empty set.
#[verifier::external_body]
pub(crate) fn key_set_new() -> (set: IndexSet<u64>)
    ensures
        index_set_items(set) == Seq::<u64>::empty(),
{
    IndexSet::new()
}

/// `IndexSet::insert`: an item that is not there yet is appended and `true` comes back; an
/// item already there keeps its place and `false` comes back. A set never holds an item twice.
#[verifier::external_body]
pub(crate) fn key_set_insert(set: &mut IndexSet<u64>, key: u64) -> (added: bool)
    ensures
        index_set_items(*old(set)).contains(key) ==> !added && index_set_items(*final(set)) == index_set_items(*old(set)),
        !index_set_items(*old(set)).contains(key) ==> added && index_set_items(*final(set)) == index_set_items(*old(set)).push(key),
        index_set_items(*final(set)).no_duplicates(),
{
    set.insert(key)
}

/// `IndexSet::swap_remove`: an item that is there is removed and the last item takes its place;
/// `true` comes back. Removing an item that is not there changes nothing and gives `false`.
#[verifier::external_body]
pub(crate) fn key_set_swap_remove(set: &mut IndexSet<u64>, key: u64) -> (removed: bool)
    ensures
        removed == index_set_items(*old(set)).contains(key),
        !removed ==> index_set_items(*final(set)) == index_set_items(*old(set)),
        forall|i: int| 0 <= i < index_set_items(*old(set)).len() && index_set_items(*old(set))[i] == key
            && index_set_items(*old(set)).no_duplicates() ==> index_set_items(*final(set)) == swap_removed(index_set_items(*old(set)), i),
        index_set_items(*final(set)).no_duplicates(),
{
    set.swap_remove(&key)
}

/// `IndexSet::contains`: whether the item is there.
#[verifier::external_body]
pub(crate) fn key_set_contains(set: &IndexSet<u64>, key: u64) -> (present: bool)
    ensures
        present == index_set_items(*set).contains(key),
{
    set.contains(&key)
}

/// `IndexSet::len`: the number of items.
#[verifier::external_body]
pub(crate) fn key_set_len(set: &IndexSet<u64>) -> (n: usize)
    ensures
        n == index_set_items(*set).len(),
{
    set.len()
}

/// `IndexSet::get_index`: the item at a position.
#[verifier::external_body]
pub(crate) fn key_set_get(set: &IndexSet<u64>, index: usize) -> (key: u64)
    requires
        index < index_set_items(*set).len(),
    ensures
        key == index_set_items(*set)[index as int],
{
    *set.get_index(index).unwrap()
}

} // verus!
