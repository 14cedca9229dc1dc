//! The keys of a list: how children are put under them, and which keys
//! children get where none are given.

use crate::model::ListModel;
use crate::model::Tree;
use crate::ordered::find;
use vstd::prelude::*;
use vstd::string::StringExecFns;

verus! {

/// The list with `node` put under `key` as a map does it: in place of the
/// node that the key had, or last under a key that is new.
pub open spec fn put(list: ListModel, key: Seq<char>, node: Tree) -> ListModel {
    match find(list.keys, key) {
        Some(i) => ListModel { keys: list.keys, nodes: list.nodes.update(i, node) },
        None => ListModel { keys: list.keys.push(key), nodes: list.nodes.push(node) },
    }
}

/// The list that holds `nodes[..n]` under `keys[..n]`, put in first to last.
pub open spec fn keyed(keys: Seq<Seq<char>>, nodes: Seq<Tree>, n: int) -> ListModel
    decreases n,
{
    if n <= 0 {
        ListModel { keys: Seq::empty(), nodes: Seq::empty() }
    } else {
        put(keyed(keys, nodes, n - 1), keys[n - 1], nodes[n - 1])
    }
}

/// The decimal digit `d` as a string.
pub open spec fn digit(d: nat) -> Seq<char> {
    if d == 0 {
        "0"@
    } else if d == 1 {
        "1"@
    } else if d == 2 {
        "2"@
    } else if d == 3 {
        "3"@
    } else if d == 4 {
        "4"@
    } else if d == 5 {
        "5"@
    } else if d == 6 {
        "6"@
    } else if d == 7 {
        "7"@
    } else if d == 8 {
        "8"@
    } else {
        "9"@
    }
}

/// The number `n` in decimal digits.
pub open spec fn decimal(n: nat) -> Seq<char>
    decreases n,
{
    if n < 10 {
        digit(n)
    } else {
        decimal(n / 10) + digit(n % 10)
    }
}

/// The keys that children get where none are given: their positions, in
/// decimal digits.
pub open spec fn index_keys(n: nat) -> Seq<Seq<char>> {
    Seq::new(n, |i: int| decimal(i as nat))
}

/// The position `i` in decimal digits.
pub fn index_key(i: usize) -> (key: String)
    ensures
        key@ == decimal(i as nat),
    decreases i,
{
    let last = if i % 10 == 0 {
        "0"
    } else if i % 10 == 1 {
        "1"
    } else if i % 10 == 2 {
        "2"
    } else if i % 10 == 3 {
        "3"
    } else if i % 10 == 4 {
        "4"
    } else if i % 10 == 5 {
        "5"
    } else if i % 10 == 6 {
        "6"
    } else if i % 10 == 7 {
        "7"
    } else if i % 10 == 8 {
        "8"
    } else {
        "9"
    };
    if i < 10 {
        last.to_owned()
    } else {
        let mut key = index_key(i / 10);
        key.append(last);
        key
    }
}

/// The character sequences of a sequence of strings.
pub open spec fn strings_view(keys: Seq<String>) -> Seq<Seq<char>> {
    Seq::new(keys.len(), |i: int| keys[i]@)
}

} // verus!
