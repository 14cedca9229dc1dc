//! The insertion-ordered collections of `indexmap`, as the engine uses them.
//!
//! An attribute set is an `IndexMap` from attribute name to value; the keys of a
//! list are an `IndexSet`. Both are opaque to the verifier: what they hold is
//! named by [`attribute_entries`] and [`key_order`], and every method the engine
//! calls is reached through a small function here whose contract restates what
//! `indexmap` documents for it. None of these contracts is proved.

use indexmap::IndexMap;
use indexmap::IndexSet;
use vstd::prelude::*;

verus! {

/// `indexmap::IndexMap`: a map that keeps its entries in the order in which
/// their keys came.
#[verifier::external_type_specification]
#[verifier::external_body]
#[verifier::reject_recursive_types(K)]
#[verifier::reject_recursive_types(V)]
#[verifier::reject_recursive_types(S)]
pub struct ExIndexMap<K, V, S>(IndexMap<K, V, S>);

/// `indexmap::IndexSet`: a set that keeps its members in the order in which
/// they came.
#[verifier::external_type_specification]
#[verifier::external_body]
#[verifier::reject_recursive_types(T)]
#[verifier::reject_recursive_types(S)]
pub struct ExIndexSet<T, S>(IndexSet<T, S>);

/// The entries of an attribute map, in the map's order.
pub uninterp spec fn attribute_entries(map: IndexMap<String, String>) -> Seq<(Seq<char>, Seq<char>)>;

/// The members of a key set, in the set's order.
pub uninterp spec fn key_order(set: IndexSet<String>) -> Seq<Seq<char>>;

/// The names of a sequence of attribute entries.
pub open spec fn names(entries: Seq<(Seq<char>, Seq<char>)>) -> Seq<Seq<char>> {
    Seq::new(entries.len(), |i: int| entries[i].0)
}

/// Where `key` stands in `keys`, if anywhere. With no key repeated there is at
/// most one such place.
pub open spec fn find(keys: Seq<Seq<char>>, key: Seq<char>) -> Option<int> {
    if exists|i: int| 0 <= i < keys.len() && keys[i] == key {
        Some(choose|i: int| 0 <= i < keys.len() && keys[i] == key)
    } else {
        None
    }
}

/// What `Vec::swap_remove` leaves of `s`: the last item takes the place of the
/// one at `i`.
pub open spec fn swap_removed<A>(s: Seq<A>, i: int) -> Seq<A> {
    s.update(i, s.last()).drop_last()
}

/// In a sequence without repeats, a key is found exactly where it stands.
pub proof fn lemma_find_unique(keys: Seq<Seq<char>>, key: Seq<char>, i: int)
    requires
        keys.no_duplicates(),
        0 <= i < keys.len(),
        keys[i] == key,
    ensures
        find(keys, key) == Some(i),
{
}

/// A key that occurs nowhere is not found.
pub proof fn lemma_find_absent(keys: Seq<Seq<char>>, key: Seq<char>)
    requires
        !keys.contains(key),
    ensures
        find(keys, key) is None,
{
}

/// Removing by swap keeps a sequence free of repeats.
pub proof fn lemma_swap_removed_unique<A>(s: Seq<A>, i: int)
    requires
        s.no_duplicates(),
        0 <= i < s.len(),
    ensures
        swap_removed(s, i).no_duplicates(),
        swap_removed(s, i).len() == s.len() - 1,
        !swap_removed(s, i).contains(s[i]),
        forall|x: A| x != s[i] && s.contains(x) ==> #[trigger] swap_removed(s, i).contains(x),
        forall|x: A| #[trigger] swap_removed(s, i).contains(x) ==> s.contains(x),
{
    let r = swap_removed(s, i);
    assert forall|x: A| x != s[i] && s.contains(x) implies #[trigger] r.contains(x) by {
        let j = choose|j: int| 0 <= j < s.len() && s[j] == x;
        if j == s.len() - 1 {
            assert(r[i] == x);
        } else {
            assert(r[j] == x);
        }
    }
    assert forall|x: A| #[trigger] r.contains(x) implies s.contains(x) by {
        let j = choose|j: int| 0 <= j < r.len() && r[j] == x;
        if j == i {
            assert(s[s.len() - 1] == x);
        } else {
            assert(s[j] == x);
        }
    }
}

/// `IndexMap::new`: a map with no entries.
#[verifier::external_body]
pub(crate) fn map_new() -> (map: IndexMap<String, String>)
    ensures
        attribute_entries(map) == Seq::<(Seq<char>, Seq<char>)>::empty(),
{
    IndexMap::new()
}

/// `IndexMap::len`: the number of entries.
#[verifier::external_body]
pub(crate) fn map_len(map: &IndexMap<String, String>) -> (n: usize)
    ensures
        n == attribute_entries(*map).len(),
{
    map.len()
}

/// `IndexMap::insert`: a key already present keeps its place and takes the new
/// value, and the old value is returned; a new key goes last.
#[verifier::external_body]
pub(crate) fn map_insert(map: &mut IndexMap<String, String>, key: String, value: String) -> (previous: Option<String>)
    ensures
        match previous {
            Some(p) => exists|i: int|
                0 <= i < attribute_entries(*old(map)).len()
                    && (#[trigger] attribute_entries(*old(map))[i]).0 == key@
                    && attribute_entries(*old(map))[i].1 == p@
                    && attribute_entries(*final(map)) == attribute_entries(*old(map)).update(i, (key@, value@)),
            None => !names(attribute_entries(*old(map))).contains(key@)
                && attribute_entries(*final(map)) == attribute_entries(*old(map)).push((key@, value@)),
        },
{
    map.insert(key, value)
}

/// `IndexMap::get_index`: the entry at position `i`, if there is one.
#[verifier::external_body]
pub(crate) fn map_entry(map: &IndexMap<String, String>, i: usize) -> (entry: Option<(&String, &String)>)
    ensures
        match entry {
            Some((k, v)) => i < attribute_entries(*map).len()
                && k@ == attribute_entries(*map)[i as int].0
                && v@ == attribute_entries(*map)[i as int].1,
            None => i >= attribute_entries(*map).len(),
        },
{
    map.get_index(i)
}

/// `IndexMap::get`: the value stored under `key`, if the key is present.
#[verifier::external_body]
pub(crate) fn map_get<'a>(map: &'a IndexMap<String, String>, key: &str) -> (value: Option<&'a String>)
    ensures
        match value {
            Some(v) => exists|i: int|
                0 <= i < attribute_entries(*map).len()
                    && (#[trigger] attribute_entries(*map)[i]).0 == key@
                    && attribute_entries(*map)[i].1 == v@,
            None => !names(attribute_entries(*map)).contains(key@),
        },
{
    map.get(key)
}

/// `IndexMap::swap_remove`: the entry under `key` leaves and the last entry
/// takes its place; the value that left is returned.
#[verifier::external_body]
pub(crate) fn map_swap_remove(map: &mut IndexMap<String, String>, key: &str) -> (removed: Option<String>)
    ensures
        match removed {
            Some(v) => exists|i: int|
                0 <= i < attribute_entries(*old(map)).len()
                    && (#[trigger] attribute_entries(*old(map))[i]).0 == key@
                    && attribute_entries(*old(map))[i].1 == v@
                    && attribute_entries(*final(map)) == swap_removed(attribute_entries(*old(map)), i),
            None => !names(attribute_entries(*old(map))).contains(key@)
                && attribute_entries(*final(map)) == attribute_entries(*old(map)),
        },
{
    map.swap_remove(key)
}

/// `IndexSet::new`: a set with no members.
#[verifier::external_body]
pub(crate) fn set_new() -> (set: IndexSet<String>)
    ensures
        key_order(set) == Seq::<Seq<char>>::empty(),
{
    IndexSet::new()
}

/// `IndexSet::insert`: a value not yet present goes last and `true` is
/// returned; one already present changes nothing.
#[verifier::external_body]
pub(crate) fn set_insert(set: &mut IndexSet<String>, key: String) -> (added: bool)
    ensures
        added == !key_order(*old(set)).contains(key@),
        key_order(*final(set)) == if added {
            key_order(*old(set)).push(key@)
        } else {
            key_order(*old(set))
        },
{
    set.insert(key)
}

/// `IndexSet::get_index`: the member at position `i`, if there is one.
#[verifier::external_body]
pub(crate) fn set_key(set: &IndexSet<String>, i: usize) -> (key: Option<&String>)
    ensures
        match key {
            Some(k) => i < key_order(*set).len() && k@ == key_order(*set)[i as int],
            None => i >= key_order(*set).len(),
        },
{
    set.get_index(i)
}

/// `IndexSet::get_index_of`: the position of `key`, if it is a member.
#[verifier::external_body]
pub(crate) fn set_index_of(set: &IndexSet<String>, key: &str) -> (index: Option<usize>)
    ensures
        match index {
            Some(i) => i < key_order(*set).len() && key_order(*set)[i as int] == key@,
            None => !key_order(*set).contains(key@),
        },
{
    set.get_index_of(key)
}

/// `IndexSet::swap_remove_full`: `key` leaves and the last member takes its
/// place; the position it had is returned.
#[verifier::external_body]
pub(crate) fn set_swap_remove(set: &mut IndexSet<String>, key: &str) -> (index: Option<usize>)
    ensures
        match index {
            Some(i) => i < key_order(*old(set)).len() && key_order(*old(set))[i as int] == key@
                && key_order(*final(set)) == swap_removed(key_order(*old(set)), i as int),
            None => !key_order(*old(set)).contains(key@) && key_order(*final(set)) == key_order(
                *old(set),
            ),
        },
{
    set.swap_remove_full(key).map(|found| found.0)
}

/// `IndexSet::clone`: a set with the same members in the same order.
#[verifier::external_body]
pub(crate) fn set_clone(set: &IndexSet<String>) -> (copy: IndexSet<String>)
    ensures
        key_order(copy) == key_order(*set),
{
    set.clone()
}

} // verus!
