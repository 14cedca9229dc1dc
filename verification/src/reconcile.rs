//! The reconciliation of a keyed list with the list that was there before,
//! step by step: what each step does to the children and why that is what
//! the contract of the list says.

use crate::model::lemma_nodes_size;
use crate::model::list_remove_effects;
use crate::model::ListModel;
use crate::model::nodes_size;
use crate::model::size;
use crate::model::Tree;
use crate::ordered::find;
use crate::ordered::key_order;
use crate::ordered::lemma_find_absent;
use crate::ordered::lemma_find_unique;
use crate::ordered::lemma_swap_removed_unique;
use crate::ordered::set_index_of;
use crate::ordered::set_key;
use crate::ordered::set_swap_remove;
use crate::ordered::swap_removed;
use crate::patching::dirty_order;
use crate::patching::first_node;
use crate::patching::is_patch_of;
use crate::patching::is_render_of;
use crate::patching::is_served;
use crate::patching::lookup_node;
use crate::patching::next_at;
use crate::patching::prefix_render_effects;
use crate::patching::remaining;
use crate::patching::reorder_effects;
use crate::patching::reorder_step;
use crate::patching::suffix_patch_effects;
use crate::patching::without_key;
use crate::target::Handle;
use crate::target::Target;
use crate::vlist::lemma_trees;
use crate::vlist::trees;
use crate::vlist::VList;
use crate::vnode::VNode;
use indexmap::IndexSet;
use vstd::prelude::*;

verus! {

/// Children that are all matched are matched up to any point.
pub proof fn lemma_same_children_prefix(x: ListModel, y: ListModel, m: int, n: int)
    requires
        0 <= m <= n <= x.nodes.len(),
        crate::model::same_children(x, y, n),
    ensures
        crate::model::same_children(x, y, m),
    decreases n - m,
{
    if m < n {
        lemma_same_children_prefix(x, y, m, n - 1);
    }
}

/// Takes the nodes out of `parent`, first to last.
pub(crate) fn remove_nodes(nodes: Vec<VNode>, target: &mut Target, parent: Handle, Ghost(list): Ghost<ListModel>)
    requires
        trees(nodes@) == list.nodes,
        forall|i: int| 0 <= i < list.nodes.len() ==> (#[trigger] list.nodes[i]).is_attached(),
    ensures
        crate::vlist::all_torn_down(nodes@),
        final(target)@ == old(target)@ + list_remove_effects(list.nodes, parent),
        final(target).depth() == old(target).depth(),
        final(target).request_flag() == old(target).request_flag(),
        crate::target::numbered(old(target)@) ==> crate::target::numbered(final(target)@),
    decreases crate::model::nodes_size(list.nodes), 2nat,
{
    let total = nodes.len();
    let mut stack = reversed(nodes);
    let ghost all = list.nodes;
    let ghost n = all.len() as int;
    let mut i: usize = 0;
    proof {
        lemma_trees(nodes@);
        lemma_trees(stack@);
        assert(old(target)@ + list_remove_effects(all.subrange(0, 0), parent) =~= old(target)@);
    }
    while stack.len() > 0
        invariant
            0 <= i <= n,
            n == all.len(),
            n == total,
            all == list.nodes,
            stack@.len() == n - i,
            n == nodes@.len(),
            forall|j: int| 0 <= j < stack@.len() ==> (#[trigger] stack@[j]) == nodes@[n - 1 - j],
            forall|j: int| 0 <= j < stack@.len() ==> (#[trigger] stack@[j])@ == all[n - 1 - j],
            forall|j: int| 0 <= j < n ==> (#[trigger] all[j]).is_attached(),
            crate::vlist::all_torn_down(nodes@.take(i as int)),
            target@ == old(target)@ + list_remove_effects(all.subrange(0, i as int), parent),
            target.depth() == old(target).depth(),
            target.request_flag() == old(target).request_flag(),
            crate::target::numbered(old(target)@) ==> crate::target::numbered(target@),
        decreases stack@.len(),
    {
        let node = match stack.pop() {
            Some(node) => node,
            None => vstd::pervasive::unreached(),
        };
        assert(node@ == all[i as int]);
        proof {
            crate::model::lemma_nodes_size(all, i as int);
        }
        assert(node == nodes@[i as int]);
        node.remove(target, parent);
        proof {
            assert(nodes@.take(i + 1).drop_last() =~= nodes@.take(i as int));
            assert(nodes@.take(i + 1).last() == nodes@[i as int]);
            let upto = all.subrange(0, i + 1);
            assert(upto.drop_last() =~= all.subrange(0, i as int));
            assert(upto.last() == all[i as int]);
            assert(target@ =~= old(target)@ + list_remove_effects(upto, parent));
        }
        i += 1;
    }
    assert(all.subrange(0, n) =~= all);
    assert(nodes@.take(n) =~= nodes@);
}

/// The nodes in the opposite order.
pub(crate) fn reversed(nodes: Vec<VNode>) -> (stack: Vec<VNode>)
    ensures
        stack@.len() == nodes@.len(),
        forall|j: int| 0 <= j < stack@.len() ==> (#[trigger] stack@[j]) == nodes@[nodes@.len() - 1 - j],
        forall|j: int| 0 <= j < stack@.len() ==> (#[trigger] stack@[j])@ == trees(nodes@)[nodes@.len() - 1 - j],
{
    let mut rest = nodes;
    let mut stack: Vec<VNode> = Vec::new();
    while rest.len() > 0
        invariant
            stack@.len() + rest@.len() == nodes@.len(),
            forall|j: int| 0 <= j < rest@.len() ==> (#[trigger] rest@[j]) == nodes@[j],
            forall|j: int| 0 <= j < stack@.len() ==> (#[trigger] stack@[j]) == nodes@[nodes@.len() - 1 - j],
        decreases rest@.len(),
    {
        match rest.pop() {
            Some(node) => stack.push(node),
            None => {},
        }
    }
    proof {
        lemma_trees(nodes@);
    }
    stack
}

/// The models of nodes go with the nodes through a removal by swap.
pub proof fn lemma_trees_swap_removed(nodes: Seq<VNode>, i: int)
    requires
        0 <= i < nodes.len(),
    ensures
        trees(swap_removed(nodes, i)) == swap_removed(trees(nodes), i),
{
    let moved = swap_removed(nodes, i);
    lemma_trees(nodes);
    lemma_trees(moved);
    assert forall|j: int| 0 <= j < moved.len() implies trees(moved)[j] == swap_removed(trees(nodes), i)[j] by {
        assert(trees(moved)[j] == moved[j]@);
        if j == i {
            assert(moved[j] == nodes[nodes.len() - 1]);
        } else {
            assert(moved[j] == nodes[j]);
        }
    }
    assert(trees(moved) =~= swap_removed(trees(nodes), i));
}

/// `node` is one of the children of `list`.
pub open spec fn held_by(list: ListModel, node: Tree) -> bool {
    exists|k: int| 0 <= k < list.nodes.len() && #[trigger] list.nodes[k] == node
}

/// The models of nodes go with the nodes through a push.
pub proof fn lemma_trees_push(nodes: Seq<VNode>, node: VNode)
    ensures
        trees(nodes.push(node)) == trees(nodes).push(node@),
{
    assert(nodes.push(node).drop_last() =~= nodes);
}

/// A list is well keyed: each child has its key and no key occurs twice.
pub open spec fn well_keyed(list: ListModel) -> bool {
    &&& list.keys.len() == list.nodes.len()
    &&& list.keys.no_duplicates()
}

/// Taking a key out of a well keyed list leaves it well keyed, takes that
/// key away and leaves every other key with its node.
pub proof fn lemma_without_key(list: ListModel, key: Seq<char>)
    requires
        well_keyed(list),
    ensures
        well_keyed(without_key(list, key)),
        lookup_node(without_key(list, key), key) is None,
        forall|other: Seq<char>| other != key ==> lookup_node(without_key(list, key), other) == lookup_node(list, other),
        forall|j: int|
            0 <= j < without_key(list, key).nodes.len() ==> held_by(list, #[trigger] without_key(list, key).nodes[j]),
{
    let rest = without_key(list, key);
    match find(list.keys, key) {
        Some(i) => {
            assert(0 <= i < list.keys.len() && list.keys[i] == key);
            lemma_swap_removed_unique(list.keys, i);
            lemma_find_absent(rest.keys, key);
            assert forall|other: Seq<char>| other != key implies lookup_node(rest, other) == lookup_node(
                list,
                other,
            ) by {
                if list.keys.contains(other) {
                    let j = choose|j: int| 0 <= j < list.keys.len() && list.keys[j] == other;
                    lemma_find_unique(list.keys, other, j);
                    let k = if j == list.keys.len() - 1 {
                        i
                    } else {
                        j
                    };
                    assert(rest.keys[k] == other);
                    lemma_find_unique(rest.keys, other, k);
                } else {
                    lemma_find_absent(list.keys, other);
                    lemma_find_absent(rest.keys, other);
                }
            }
            assert forall|j: int| 0 <= j < rest.nodes.len() implies held_by(list, #[trigger] rest.nodes[j]) by {
                let k = if j == i {
                    list.nodes.len() - 1
                } else {
                    j
                };
                assert(list.nodes[k] == rest.nodes[j]);
            }
        },
        None => {
            assert forall|j: int| 0 <= j < rest.nodes.len() implies held_by(list, #[trigger] rest.nodes[j]) by {
                assert(list.nodes[j] == rest.nodes[j]);
            }
        },
    }
}

/// What remains of a well keyed list is well keyed, holds only nodes of the
/// list, and still holds every key that was not taken with its node.
pub proof fn lemma_remaining(prior: ListModel, taken: Seq<Seq<char>>, from: int)
    requires
        well_keyed(prior),
        0 <= from <= taken.len(),
    ensures
        well_keyed(remaining(prior, taken, from)),
        forall|key: Seq<char>|
            (forall|i: int| from <= i < taken.len() ==> taken[i] != key) ==> lookup_node(
                remaining(prior, taken, from),
                key,
            ) == lookup_node(prior, key),
        forall|j: int|
            0 <= j < remaining(prior, taken, from).nodes.len() ==> held_by(
                prior,
                #[trigger] remaining(prior, taken, from).nodes[j],
            ),
    decreases taken.len() - from,
{
    if from < taken.len() {
        lemma_remaining(prior, taken, from + 1);
        let before = remaining(prior, taken, from + 1);
        lemma_without_key(before, taken[from]);
        let after = remaining(prior, taken, from);
        assert forall|j: int| 0 <= j < after.nodes.len() implies held_by(prior, #[trigger] after.nodes[j]) by {
            assert(held_by(before, after.nodes[j]));
            let m = choose|m: int| 0 <= m < before.nodes.len() && #[trigger] before.nodes[m] == after.nodes[j];
            assert(held_by(prior, before.nodes[m]));
        }
    } else {
        assert forall|j: int| 0 <= j < prior.nodes.len() implies held_by(
            prior,
            #[trigger] remaining(prior, taken, from).nodes[j],
        ) by {
            assert(prior.nodes[j] == remaining(prior, taken, from).nodes[j]);
        }
    }
}

/// Whether the children that the old list had stand in another order now:
/// whether one of them comes before a child that it followed in the old list.
/// Children that are new do not count.
pub fn has_dirty_order(new_vnodes: &VList, old_nodes: &IndexSet<String>) -> (dirty: bool)
    requires
        key_order(*old_nodes).no_duplicates(),
    ensures
        dirty == dirty_order(key_order(*old_nodes), new_vnodes@.keys),
{
    let ghost old_keys = key_order(*old_nodes);
    let ghost new_keys = new_vnodes@.keys;
    let n = new_vnodes.len();
    let mut old_last_position: usize = 0;
    let ghost mut witness: int = -1;
    let mut i: usize = 0;
    while i < n
        invariant
            i <= n,
            n == new_keys.len(),
            new_keys == new_vnodes@.keys,
            old_keys == key_order(*old_nodes),
            old_keys.no_duplicates(),
            -1 <= witness < i,
            witness == -1 ==> old_last_position == 0,
            witness >= 0 ==> find(old_keys, new_keys[witness]) == Some(old_last_position as int),
            forall|j: int|
                0 <= j < i && (#[trigger] find(old_keys, new_keys[j])) is Some ==> find(old_keys, new_keys[j])->0
                    <= old_last_position,
            forall|j: int, k: int|
                0 <= j < k < i && (#[trigger] find(old_keys, new_keys[j])) is Some && (#[trigger] find(
                    old_keys,
                    new_keys[k],
                )) is Some ==> find(old_keys, new_keys[j])->0 <= find(old_keys, new_keys[k])->0,
        decreases n - i,
    {
        let key = new_vnodes.key(i);
        let position = set_index_of(old_nodes, key.as_str());
        proof {
            match position {
                Some(p) => lemma_find_unique(old_keys, key@, p as int),
                None => lemma_find_absent(old_keys, key@),
            }
        }
        match position {
            Some(old_pos) => {
                if old_pos >= old_last_position {
                    old_last_position = old_pos;
                    proof {
                        witness = i as int;
                    }
                } else {
                    proof {
                        assert(witness >= 0);
                        assert(find(old_keys, new_keys[witness]) is Some);
                        assert(find(old_keys, new_keys[i as int]) is Some);
                        assert(find(old_keys, new_keys[witness])->0 > find(old_keys, new_keys[i as int])->0);
                    }
                    return true;
                }
            },
            None => {},
        }
        i += 1;
    }
    false
}

/// The reordering sweep: the children are walked last to first, and each one
/// that the old list held at another position is moved before the node of
/// the child after it, or to the end of `parent` where nothing with a node
/// follows. The sweep is a single pass over positions, not a search for the
/// fewest moves, and a child that kept its position is never moved.
pub fn update_positions(new_vnodes: &VList, target: &mut Target, parent: Handle, old_vnodes: &IndexSet<String>)
    requires
        Tree::List(new_vnodes@).is_attached(),
        key_order(*old_vnodes).no_duplicates(),
    ensures
        final(target)@ == old(target)@ + reorder_effects(new_vnodes@, key_order(*old_vnodes), parent, 0),
        final(target).depth() == old(target).depth(),
        final(target).request_flag() == old(target).request_flag(),
        crate::target::numbered(old(target)@) ==> crate::target::numbered(final(target)@),
{
    let ghost out = new_vnodes@;
    let ghost old_keys = key_order(*old_vnodes);
    let n = new_vnodes.len();
    let mut i: usize = n;
    assert(target@ =~= old(target)@ + reorder_effects(out, old_keys, parent, n as int));
    while i > 0
        invariant
            i <= n,
            n == out.nodes.len(),
            n == out.keys.len(),
            out == new_vnodes@,
            old_keys == key_order(*old_vnodes),
            old_keys.no_duplicates(),
            Tree::List(out).is_attached(),
            target@ == old(target)@ + reorder_effects(out, old_keys, parent, i as int),
            target.depth() == old(target).depth(),
            target.request_flag() == old(target).request_flag(),
            crate::target::numbered(old(target)@) ==> crate::target::numbered(target@),
        decreases i,
    {
        i -= 1;
        let key = new_vnodes.key(i);
        let old_pos = set_index_of(old_vnodes, key.as_str());
        proof {
            match old_pos {
                Some(p) => lemma_find_unique(old_keys, key@, p as int),
                None => lemma_find_absent(old_keys, key@),
            }
        }
        let ghost sofar = target@;
        match old_pos {
            Some(old_pos) => {
                if old_pos != i {
                    let new_node = new_vnodes.node(i);
                    let sibling = if i + 1 < n {
                        new_vnodes.node(i + 1).dom_node()
                    } else {
                        None
                    };
                    assert(sibling == next_at(out.nodes, None, i as int));
                    match sibling {
                        Some(sibling) => new_node.move_before(target, parent, sibling),
                        None => new_node.move_to_last(target, parent),
                    }
                }
            },
            None => {},
        }
        assert(target@ =~= sofar + reorder_step(out, old_keys, parent, i as int));
        assert(target@ =~= old(target)@ + reorder_effects(out, old_keys, parent, i as int));
    }
}

/// Patches the children of a list against the children of an old list, last
/// to first. Each child takes the old child of its key out of the old list
/// and is patched against it, before the node of the child after it.
pub(crate) fn patch_children(
    new_nodes: Vec<VNode>,
    new_keys: &IndexSet<String>,
    old_nodes: &mut Vec<VNode>,
    old_keys: &mut IndexSet<String>,
    target: &mut Target,
    parent: Handle,
    next: Option<Handle>,
    Ghost(new): Ghost<ListModel>,
    Ghost(prior): Ghost<ListModel>,
) -> (out: Vec<VNode>)
    requires
        well_keyed(new),
        well_keyed(prior),
        new.keys == key_order(*new_keys),
        new.nodes == trees(new_nodes@),
        prior.keys == key_order(*old(old_keys)),
        prior.nodes == trees(old(old_nodes)@),
        forall|j: int| 0 <= j < prior.nodes.len() ==> (#[trigger] prior.nodes[j]).is_attached(),
        forall|j: int| 0 <= j < new.nodes.len() ==> crate::model::is_unbound(#[trigger] new.nodes[j]),
    ensures
        trees(out@).len() == new.nodes.len(),
        out@.len() == new_nodes@.len(),
        forall|j: int|
            0 <= j < new.nodes.len() ==> crate::vnode::is_patched_against(
                #[trigger] out@[j],
                new_nodes@[j],
                lookup_node(prior, new.keys[j]),
                old(target).request_flag(),
                old(target).depth(),
            ),
        forall|j: int|
            0 <= j < new.nodes.len() ==> is_patch_of(
                #[trigger] trees(out@)[j],
                new.nodes[j],
                lookup_node(prior, new.keys[j]),
                old(target).depth(),
            ),
        forall|j: int| 0 <= j < new.nodes.len() ==> (#[trigger] trees(out@)[j]).is_attached(),
        final(target)@ == old(target)@ + suffix_patch_effects(trees(out@), new, prior, parent, next),
        final(target).depth() == old(target).depth(),
        final(target).request_flag() == old(target).request_flag(),
        crate::target::numbered(old(target)@) ==> crate::target::numbered(final(target)@),
        key_order(*final(old_keys)) == remaining(prior, new.keys, 0).keys,
        trees(final(old_nodes)@) == remaining(prior, new.keys, 0).nodes,
    decreases old(target).depth(), size(Tree::List(new)) + nodes_size(prior.nodes), 1nat,
{
    let n = new_nodes.len();
    let mut rest = new_nodes;
    let mut patched: Vec<VNode> = Vec::new();
    let mut next_node = next;
    let ghost mut done: Seq<Tree> = Seq::empty();
    let mut i: usize = n;
    proof {
        lemma_trees(new_nodes@);
        assert(target@ =~= old(target)@ + suffix_patch_effects(done, new, prior, parent, next));
    }
    while i > 0
        invariant
            i <= n,
            n == new.nodes.len(),
            well_keyed(new),
            well_keyed(prior),
            new.keys == key_order(*new_keys),
            new.nodes == trees(new_nodes@),
            forall|j: int| 0 <= j < new.nodes.len() ==> crate::model::is_unbound(#[trigger] new.nodes[j]),
            rest@.len() == i,
            n == new_nodes@.len(),
            forall|j: int| 0 <= j < i ==> (#[trigger] rest@[j]) == new_nodes@[j],
            forall|j: int| 0 <= j < i ==> (#[trigger] rest@[j])@ == new.nodes[j],
            done.len() == n - i,
            patched@.len() == n - i,
            forall|j: int|
                0 <= j < n - i ==> crate::vnode::is_patched_against(
                    #[trigger] patched@[j],
                    new_nodes@[n - 1 - j],
                    lookup_node(prior, new.keys[n - 1 - j]),
                    old(target).request_flag(),
                    old(target).depth(),
                ),
            forall|j: int| 0 <= j < n - i ==> (#[trigger] patched@[j])@ == done[n - i - 1 - j],
            next_node == first_node(done, next),
            forall|j: int|
                0 <= j < n - i ==> is_patch_of(
                    #[trigger] done[j],
                    new.nodes[i + j],
                    lookup_node(prior, new.keys[i + j]),
                    old(target).depth(),
                ),
            forall|j: int| 0 <= j < n - i ==> (#[trigger] done[j]).is_attached(),
            target@ == old(target)@ + suffix_patch_effects(done, new, prior, parent, next),
            target.depth() == old(target).depth(),
            target.request_flag() == old(target).request_flag(),
            crate::target::numbered(old(target)@) ==> crate::target::numbered(target@),
            key_order(*old_keys) == remaining(prior, new.keys, i as int).keys,
            trees(old_nodes@) == remaining(prior, new.keys, i as int).nodes,
            forall|j: int| 0 <= j < prior.nodes.len() ==> (#[trigger] prior.nodes[j]).is_attached(),
        decreases i,
    {
        let ghost held = remaining(prior, new.keys, i as int);
        proof {
            lemma_remaining(prior, new.keys, i as int);
            lemma_trees(old_nodes@);
        }
        i -= 1;
        let child = match rest.pop() {
            Some(child) => child,
            None => vstd::pervasive::unreached(),
        };
        let key = match set_key(new_keys, i) {
            Some(key) => key,
            None => vstd::pervasive::unreached(),
        };
        assert(child@ == new.nodes[i as int]);
        assert(key@ == new.keys[i as int]);
        proof {
            assert(forall|j: int| i < j < new.keys.len() ==> new.keys[j] != key@);
            assert(lookup_node(held, key@) == lookup_node(prior, key@));
        }
        let taken = match set_swap_remove(old_keys, key.as_str()) {
            Some(position) => {
                proof {
                    lemma_find_unique(held.keys, key@, position as int);
                    lemma_trees_swap_removed(old_nodes@, position as int);
                }
                Some(old_nodes.swap_remove(position))
            },
            None => {
                proof {
                    lemma_find_absent(held.keys, key@);
                }
                None
            },
        };
        proof {
            assert(taken.deep_view() == lookup_node(prior, key@));
            assert(key_order(*old_keys) == without_key(held, key@).keys);
            assert(trees(old_nodes@) == without_key(held, key@).nodes);
            lemma_nodes_size(new.nodes, i as int);
            if taken is Some {
                let k = find(prior.keys, key@)->0;
                lemma_nodes_size(prior.nodes, k);
                assert(taken->0@ == prior.nodes[k]);
            }
        }
        let ghost sofar = target@;
        let ghost after = done;
        let ghost fresh = child;
        let ghost against = taken;
        let ghost pushed = patched@;
        assert(child == new_nodes@[i as int]);
        let node = child.patch(target, parent, next_node, taken);
        proof {
            assert(crate::vnode::shows_as(against, lookup_node(prior, new.keys[i as int]))
                && crate::vnode::is_patched(
                node,
                fresh,
                against,
                old(target).request_flag(),
                old(target).depth(),
            ));
        }
        next_node = node.dom_node();
        proof {
            done = seq![node@] + after;
            assert(done.drop_first() =~= after);
            assert(done.first() == node@);
            assert(new.nodes.len() - done.len() == i);
            assert(target@ =~= old(target)@ + suffix_patch_effects(done, new, prior, parent, next));
            assert forall|j: int| 0 <= j < n - i implies is_patch_of(
                #[trigger] done[j],
                new.nodes[i + j],
                lookup_node(prior, new.keys[i + j]),
                old(target).depth(),
            ) by {
                if j > 0 {
                    assert(done[j] == after[j - 1]);
                }
            }
            assert forall|j: int| 0 <= j < n - i implies (#[trigger] done[j]).is_attached() by {
                if j > 0 {
                    assert(done[j] == after[j - 1]);
                }
            }
        }
        patched.push(node);
        proof {
            assert forall|j: int| 0 <= j < n - i implies crate::vnode::is_patched_against(
                #[trigger] patched@[j],
                new_nodes@[n - 1 - j],
                lookup_node(prior, new.keys[n - 1 - j]),
                old(target).request_flag(),
                old(target).depth(),
            ) by {
                if j < n - i - 1 {
                    assert(patched@[j] == pushed[j]);
                }
            }
            assert forall|j: int| 0 <= j < n - i implies (#[trigger] patched@[j])@ == done[n - i - 1 - j] by {
                if j < n - i - 1 {
                    assert(done[n - i - 1 - j] == after[n - i - 2 - j]);
                }
            }
        }
    }
    let out = reversed(patched);
    proof {
        lemma_trees(out@);
        lemma_trees(patched@);
        assert forall|j: int| 0 <= j < n implies trees(out@)[j] == done[j] by {
            assert(trees(out@)[j] == out@[j]@);
            assert(out@[j] == patched@[n - 1 - j]);
            assert(patched@[n - 1 - j]@ == done[n - 1 - (n - 1 - j)]);
        }
        assert(trees(out@) =~= done);
    }
    out
}


/// Passes over the children of a list, first to last.
pub(crate) fn render_children(
    nodes: Vec<VNode>,
    target: &mut Target,
    parent: Handle,
    next: Option<Handle>,
    Ghost(before): Ghost<ListModel>,
) -> (out: Vec<VNode>)
    requires
        before.nodes == trees(nodes@),
    ensures
        trees(out@).len() == before.nodes.len(),
        crate::vlist::all_passed(out@, nodes@, old(target).request_flag(), old(target).depth()),
        forall|j: int|
            0 <= j < before.nodes.len() ==> is_render_of(
                #[trigger] trees(out@)[j],
                before.nodes[j],
                old(target).depth(),
            ),
        forall|j: int|
            0 <= j < before.nodes.len() && before.nodes[j].is_attached() ==> (#[trigger] trees(
                out@,
            )[j]).is_attached(),
        final(target)@ == old(target)@ + prefix_render_effects(trees(out@), before, parent, next),
        final(target).depth() == old(target).depth(),
        final(target).request_flag() == old(target).request_flag(),
        crate::target::numbered(old(target)@) ==> crate::target::numbered(final(target)@),
    decreases old(target).depth(), size(Tree::List(before)), 1nat,
{
    let n = nodes.len();
    let mut stack = reversed(nodes);
    let mut out: Vec<VNode> = Vec::new();
    let mut i: usize = 0;
    proof {
        lemma_trees(nodes@);
        lemma_trees(out@);
        assert(target@ =~= old(target)@ + prefix_render_effects(trees(out@), before, parent, next));
    }
    while i < n
        invariant
            i <= n,
            n == before.nodes.len(),
            before.nodes == trees(nodes@),
            stack@.len() == n - i,
            n == nodes@.len(),
            forall|j: int| 0 <= j < n - i ==> (#[trigger] stack@[j]) == nodes@[n - 1 - j],
            forall|j: int| 0 <= j < n - i ==> (#[trigger] stack@[j])@ == before.nodes[n - 1 - j],
            out@.len() == i,
            trees(out@).len() == i,
            crate::vlist::all_passed(
                out@,
                nodes@.take(i as int),
                old(target).request_flag(),
                old(target).depth(),
            ),
            forall|j: int|
                0 <= j < i ==> is_render_of(#[trigger] trees(out@)[j], before.nodes[j], old(target).depth()),
            forall|j: int| 0 <= j < i && before.nodes[j].is_attached() ==> (#[trigger] trees(out@)[j]).is_attached(),
            target@ == old(target)@ + prefix_render_effects(trees(out@), before, parent, next),
            target.depth() == old(target).depth(),
            target.request_flag() == old(target).request_flag(),
            crate::target::numbered(old(target)@) ==> crate::target::numbered(target@),
        decreases n - i,
    {
        let child = match stack.pop() {
            Some(child) => child,
            None => vstd::pervasive::unreached(),
        };
        assert(child@ == before.nodes[i as int]);
        proof {
            lemma_nodes_size(before.nodes, i as int);
        }
        let ghost sofar = trees(out@);
        let ghost pushed = out@;
        assert(child == nodes@[i as int]);
        let node = child.dom_render(target, parent, next);
        out.push(node);
        proof {
            assert(out@.drop_last() =~= pushed);
            assert(nodes@.take(i + 1).drop_last() =~= nodes@.take(i as int));
            assert(nodes@.take(i + 1).last() == nodes@[i as int]);
            lemma_trees(out@);
            lemma_trees_push(pushed, node);
            let after = trees(out@);
            assert(after.drop_last() =~= sofar);
            assert(after.last() == node@);
            assert(target@ =~= old(target)@ + prefix_render_effects(after, before, parent, next));
            assert forall|j: int| 0 <= j < i + 1 implies is_render_of(
                #[trigger] after[j],
                before.nodes[j],
                old(target).depth(),
            ) by {
                if j < i {
                    assert(after[j] == sofar[j]);
                }
            }
            assert forall|j: int| 0 <= j < i + 1 && before.nodes[j].is_attached() implies (#[trigger] after[j]).is_attached() by {
                if j < i {
                    assert(after[j] == sofar[j]);
                }
            }
        }
        i += 1;
    }
    proof {
        assert(nodes@.take(n as int) =~= nodes@);
    }
    out
}

/// The items in the opposite order.
pub(crate) fn reversed_items<T>(items: Vec<T>) -> (stack: Vec<T>)
    ensures
        stack@.len() == items@.len(),
        forall|j: int| 0 <= j < stack@.len() ==> (#[trigger] stack@[j]) == items@[items@.len() - 1 - j],
{
    let mut rest = items;
    let mut stack: Vec<T> = Vec::new();
    while rest.len() > 0
        invariant
            stack@.len() + rest@.len() == items@.len(),
            forall|j: int| 0 <= j < rest@.len() ==> (#[trigger] rest@[j]) == items@[j],
            forall|j: int| 0 <= j < stack@.len() ==> (#[trigger] stack@[j]) == items@[items@.len() - 1 - j],
        decreases rest@.len(),
    {
        match rest.pop() {
            Some(item) => stack.push(item),
            None => {},
        }
    }
    stack
}

/// Parts the pairs into what stands first and what stands second in them.
pub(crate) fn unzip<K>(items: Vec<(K, VNode)>) -> (parts: (Vec<K>, Vec<VNode>))
    ensures
        parts.0@.len() == items@.len(),
        parts.1@.len() == items@.len(),
        forall|j: int| 0 <= j < items@.len() ==> (#[trigger] parts.0@[j]) == items@[j].0,
        forall|j: int| 0 <= j < items@.len() ==> (#[trigger] parts.1@[j]) == items@[j].1,
{
    let n = items.len();
    let mut stack = reversed_items(items);
    let mut keys: Vec<K> = Vec::new();
    let mut nodes: Vec<VNode> = Vec::new();
    let mut i: usize = 0;
    while i < n
        invariant
            i <= n,
            n == items@.len(),
            stack@.len() == n - i,
            forall|j: int| 0 <= j < n - i ==> (#[trigger] stack@[j]) == items@[n - 1 - j],
            keys@.len() == i,
            nodes@.len() == i,
            forall|j: int| 0 <= j < i ==> (#[trigger] keys@[j]) == items@[j].0,
            forall|j: int| 0 <= j < i ==> (#[trigger] nodes@[j]) == items@[j].1,
        decreases n - i,
    {
        match stack.pop() {
            Some((key, node)) => {
                keys.push(key);
                nodes.push(node);
            },
            None => {},
        }
        i += 1;
    }
    (keys, nodes)
}

/// The models of nodes go with the nodes through an update.
pub proof fn lemma_trees_update(nodes: Seq<VNode>, i: int, node: VNode)
    requires
        0 <= i < nodes.len(),
    ensures
        trees(nodes.update(i, node)) == trees(nodes).update(i, node@),
{
    lemma_trees(nodes);
    lemma_trees(nodes.update(i, node));
    assert forall|j: int| 0 <= j < nodes.len() implies trees(nodes.update(i, node))[j] == trees(nodes).update(
        i,
        node@,
    )[j] by {
        assert(trees(nodes.update(i, node))[j] == nodes.update(i, node)[j]@);
        if j != i {
            assert(nodes.update(i, node)[j] == nodes[j]);
        }
    }
    assert(trees(nodes.update(i, node)) =~= trees(nodes).update(i, node@));
}

/// Renders the components among the nodes without a target.
pub(crate) fn serve_children(nodes: Vec<VNode>, depth: usize, Ghost(before): Ghost<ListModel>) -> (out: Vec<VNode>)
    requires
        before.nodes == trees(nodes@),
        forall|j: int| 0 <= j < before.nodes.len() ==> crate::patching::is_unrendered(#[trigger] before.nodes[j]),
    ensures
        trees(out@).len() == before.nodes.len(),
        forall|j: int|
            0 <= j < before.nodes.len() ==> is_served(#[trigger] trees(out@)[j], before.nodes[j], depth as nat),
    decreases depth, size(Tree::List(before)), 1nat,
{
    let n = nodes.len();
    let mut stack = reversed(nodes);
    let mut out: Vec<VNode> = Vec::new();
    let mut i: usize = 0;
    proof {
        lemma_trees(nodes@);
        lemma_trees(out@);
    }
    while i < n
        invariant
            i <= n,
            n == before.nodes.len(),
            before.nodes == trees(nodes@),
            stack@.len() == n - i,
            forall|j: int| 0 <= j < n - i ==> (#[trigger] stack@[j])@ == before.nodes[n - 1 - j],
            out@.len() == i,
            trees(out@).len() == i,
            forall|j: int| 0 <= j < before.nodes.len() ==> crate::patching::is_unrendered(#[trigger] before.nodes[j]),
            forall|j: int| 0 <= j < i ==> is_served(#[trigger] trees(out@)[j], before.nodes[j], depth as nat),
        decreases n - i,
    {
        let child = match stack.pop() {
            Some(child) => child,
            None => vstd::pervasive::unreached(),
        };
        assert(child@ == before.nodes[i as int]);
        proof {
            lemma_nodes_size(before.nodes, i as int);
        }
        let ghost sofar = trees(out@);
        let ghost pushed = out@;
        let node = child.server_rendered(depth);
        out.push(node);
        proof {
            lemma_trees(out@);
            lemma_trees_push(pushed, node);
            let after = trees(out@);
            assert forall|j: int| 0 <= j < i + 1 implies is_served(
                #[trigger] after[j],
                before.nodes[j],
                depth as nat,
            ) by {
                if j < i {
                    assert(after[j] == sofar[j]);
                }
            }
        }
        i += 1;
    }
    out
}

/// The nodes as they were described: none of the event bindings that a
/// patch would attach was ever attached.
pub(crate) fn renew_children(nodes: Vec<VNode>, Ghost(before): Ghost<ListModel>) -> (out: Vec<VNode>)
    requires
        before.nodes == trees(nodes@),
    ensures
        trees(out@) == crate::model::all_unbound(before.nodes),
    decreases size(Tree::List(before)), 1nat,
{
    let n = nodes.len();
    let mut stack = reversed(nodes);
    let mut out: Vec<VNode> = Vec::new();
    let mut i: usize = 0;
    proof {
        lemma_trees(nodes@);
        lemma_trees(out@);
        crate::model::lemma_all_unbound(before.nodes);
    }
    while i < n
        invariant
            i <= n,
            n == before.nodes.len(),
            before.nodes == trees(nodes@),
            stack@.len() == n - i,
            forall|j: int| 0 <= j < n - i ==> (#[trigger] stack@[j])@ == before.nodes[n - 1 - j],
            out@.len() == i,
            trees(out@).len() == i,
            forall|j: int| 0 <= j < i ==> (#[trigger] trees(out@)[j]) == crate::model::unbound(before.nodes[j]),
        decreases n - i,
    {
        let child = match stack.pop() {
            Some(child) => child,
            None => vstd::pervasive::unreached(),
        };
        assert(child@ == before.nodes[i as int]);
        proof {
            lemma_nodes_size(before.nodes, i as int);
        }
        let ghost sofar = trees(out@);
        let ghost pushed = out@;
        let node = child.renewed();
        out.push(node);
        proof {
            lemma_trees(out@);
            lemma_trees_push(pushed, node);
            let after = trees(out@);
            assert forall|j: int| 0 <= j < i + 1 implies (#[trigger] after[j]) == crate::model::unbound(
                before.nodes[j],
            ) by {
                if j < i {
                    assert(after[j] == sofar[j]);
                }
            }
        }
        i += 1;
    }
    proof {
        lemma_trees(out@);
        assert(trees(out@) =~= crate::model::all_unbound(before.nodes));
    }
    out
}

} // verus!
