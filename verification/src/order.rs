//! The order in which a document shows the children of a parent, and what a
//! patched list of texts does to it.

use crate::laws::keeps_order;
use crate::laws::law_kept_order_moves_nothing;
use crate::laws::law_stale_children_are_removed_once;
use crate::reconcile::held_by;
use crate::reconcile::lemma_remaining;
use crate::model::list_remove_effects;
use crate::model::none_effects;
use crate::model::ListModel;
use crate::model::Tree;
use crate::ordered::find;
use crate::ordered::lemma_find_absent;
use crate::ordered::lemma_find_unique;
use crate::patching::dirty_order;
use crate::patching::first_node;
use crate::patching::list_is_patch_of;
use crate::patching::list_patch_effects;
use crate::patching::lookup_node;
use crate::patching::no_children;
use crate::patching::patch_effects;
use crate::patching::remaining;
use crate::patching::suffix_patch_effects;
use crate::target::introduced;
use crate::target::numbered;
use crate::target::placed;
use crate::target::EffectModel;
use crate::target::Handle;
use vstd::prelude::*;

verus! {

/// Where `node` stands among the children shown.
pub open spec fn position(shown: Seq<Handle>, node: Handle) -> int {
    choose|i: int| 0 <= i < shown.len() && shown[i] == node
}

/// Both nodes are shown, `a` before `b`.
pub open spec fn stands_before(shown: Seq<Handle>, a: Handle, b: Handle) -> bool {
    shown.contains(a) && shown.contains(b) && position(shown, a) < position(shown, b)
}

/// The children without `node`.
pub open spec fn taken_out(shown: Seq<Handle>, node: Handle) -> Seq<Handle> {
    if shown.contains(node) {
        shown.remove(position(shown, node))
    } else {
        shown
    }
}

/// The children of `parent` after one effect. A node that is placed leaves
/// the place it had; a node that is to go before a sibling which is not
/// there is not placed at all.
pub open spec fn shown_after(shown: Seq<Handle>, effect: EffectModel, parent: Handle) -> Seq<Handle> {
    match effect {
        EffectModel::AppendChild { parent: under, node } => if under == parent {
            taken_out(shown, node).push(node)
        } else {
            shown
        },
        EffectModel::InsertBefore { parent: under, node, sibling } => if under == parent && taken_out(
            shown,
            node,
        ).contains(sibling) {
            taken_out(shown, node).insert(position(taken_out(shown, node), sibling), node)
        } else {
            shown
        },
        EffectModel::RemoveChild { parent: under, node } => if under == parent {
            taken_out(shown, node)
        } else {
            shown
        },
        _ => shown,
    }
}

/// The children of `parent` after the effects, first to last.
pub open spec fn shown_after_all(shown: Seq<Handle>, effects: Seq<EffectModel>, parent: Handle) -> Seq<Handle>
    decreases effects.len(),
{
    if effects.len() == 0 {
        shown
    } else {
        shown_after(shown_after_all(shown, effects.drop_last(), parent), effects.last(), parent)
    }
}

/// One record after another shows what both show.
pub proof fn lemma_shown_concat(shown: Seq<Handle>, first: Seq<EffectModel>, second: Seq<EffectModel>, parent: Handle)
    ensures
        shown_after_all(shown, first + second, parent) == shown_after_all(
            shown_after_all(shown, first, parent),
            second,
            parent,
        ),
    decreases second.len(),
{
    if second.len() == 0 {
        assert(first + second =~= first);
    } else {
        lemma_shown_concat(shown, first, second.drop_last(), parent);
        assert((first + second).drop_last() =~= first + second.drop_last());
        assert((first + second).last() == second.last());
    }
}

/// One effect shows what it shows.
pub proof fn lemma_shown_one(shown: Seq<Handle>, effect: EffectModel, parent: Handle)
    ensures
        shown_after_all(shown, seq![effect], parent) == shown_after(shown, effect, parent),
{
    assert(seq![effect].drop_last() =~= Seq::<EffectModel>::empty());
    assert(shown_after_all(shown, Seq::<EffectModel>::empty(), parent) == shown);
    assert(seq![effect].last() == effect);
}

/// Where no child is shown twice, a child stands where it is found.
pub proof fn lemma_position(shown: Seq<Handle>, i: int)
    requires
        shown.no_duplicates(),
        0 <= i < shown.len(),
    ensures
        position(shown, shown[i]) == i,
        shown.contains(shown[i]),
{
}

/// A new child that is put in at `at` stands there; the children before it
/// stay where they were and those from there on stand one further.
pub proof fn lemma_put_in(shown: Seq<Handle>, at: int, node: Handle)
    requires
        shown.no_duplicates(),
        !shown.contains(node),
        0 <= at <= shown.len(),
    ensures
        shown.insert(at, node).no_duplicates(),
        shown.insert(at, node).contains(node),
        position(shown.insert(at, node), node) == at,
        forall|other: Handle|
            #![trigger shown.insert(at, node).contains(other)]
            other != node ==> shown.insert(at, node).contains(other) == shown.contains(other),
        forall|other: Handle|
            #![trigger position(shown.insert(at, node), other)]
            shown.contains(other) ==> position(shown.insert(at, node), other) == if position(shown, other) < at {
                position(shown, other)
            } else {
                position(shown, other) + 1
            },
{
    let after = shown.insert(at, node);
    assert forall|i: int, j: int| 0 <= i < after.len() && 0 <= j < after.len() && i != j implies after[i]
        != after[j] by {
        let a = if i < at {
            i
        } else {
            i - 1
        };
        let b = if j < at {
            j
        } else {
            j - 1
        };
        if i != at && j != at {
            assert(after[i] == shown[a]);
            assert(after[j] == shown[b]);
        } else if i == at {
            assert(after[j] == shown[b]);
        } else {
            assert(after[i] == shown[a]);
        }
    }
    assert(after[at] == node);
    lemma_position(after, at);
    assert forall|other: Handle| other != node implies #[trigger] after.contains(other) == shown.contains(
        other,
    ) by {
        if shown.contains(other) {
            let i = position(shown, other);
            let j = if i < at {
                i
            } else {
                i + 1
            };
            assert(after[j] == other);
        }
        if after.contains(other) {
            let j = position(after, other);
            let i = if j < at {
                j
            } else {
                j - 1
            };
            assert(shown[i] == other);
        }
    }
    assert forall|other: Handle| shown.contains(other) implies #[trigger] position(after, other) == if position(
        shown,
        other,
    ) < at {
        position(shown, other)
    } else {
        position(shown, other) + 1
    } by {
        let i = position(shown, other);
        let j = if i < at {
            i
        } else {
            i + 1
        };
        assert(after[j] == other);
        lemma_position(after, j);
    }
}

/// A child that is taken out is gone; the children before it stay where
/// they were and those after it stand one nearer.
pub proof fn lemma_taken_out(shown: Seq<Handle>, node: Handle)
    requires
        shown.no_duplicates(),
    ensures
        taken_out(shown, node).no_duplicates(),
        !taken_out(shown, node).contains(node),
        forall|other: Handle|
            #![trigger taken_out(shown, node).contains(other)]
            other != node ==> taken_out(shown, node).contains(other) == shown.contains(other),
        forall|other: Handle|
            #![trigger position(taken_out(shown, node), other)]
            other != node && shown.contains(other) ==> position(taken_out(shown, node), other) == if shown.contains(
                node,
            ) && position(shown, other) > position(shown, node) {
                position(shown, other) - 1
            } else {
                position(shown, other)
            },
{
    let after = taken_out(shown, node);
    if shown.contains(node) {
        let at = position(shown, node);
        assert forall|i: int, j: int| 0 <= i < after.len() && 0 <= j < after.len() && i != j implies after[i]
            != after[j] by {
            let a = if i < at {
                i
            } else {
                i + 1
            };
            let b = if j < at {
                j
            } else {
                j + 1
            };
            assert(after[i] == shown[a]);
            assert(after[j] == shown[b]);
        }
        assert forall|other: Handle| other != node implies #[trigger] after.contains(other) == shown.contains(
            other,
        ) by {
            if shown.contains(other) {
                let i = position(shown, other);
                let j = if i < at {
                    i
                } else {
                    i - 1
                };
                assert(after[j] == other);
            }
            if after.contains(other) {
                let j = position(after, other);
                let i = if j < at {
                    j
                } else {
                    j + 1
                };
                assert(shown[i] == other);
            }
        }
        if after.contains(node) {
            let j = position(after, node);
            let i = if j < at {
                j
            } else {
                j + 1
            };
            assert(shown[i] == node);
            lemma_position(shown, i);
        }
        assert forall|other: Handle| other != node && shown.contains(other) implies #[trigger] position(
            after,
            other,
        ) == if shown.contains(node) && position(shown, other) > position(shown, node) {
            position(shown, other) - 1
        } else {
            position(shown, other)
        } by {
            let i = position(shown, other);
            let j = if i < at {
                i
            } else {
                i - 1
            };
            assert(after[j] == other);
            lemma_position(after, j);
        }
    }
}

/// Every child of the list is a text that has its node.
pub open spec fn is_texts(list: ListModel) -> bool {
    &&& list.keys.len() == list.nodes.len()
    &&& list.keys.no_duplicates()
    &&& forall|i: int|
        0 <= i < list.nodes.len() ==> (#[trigger] list.nodes[i]) is Text && list.nodes[i]->Text_0.handle is Some
}

/// The node of child `i` of a list of texts.
pub open spec fn node_of(list: ListModel, i: int) -> Handle {
    list.nodes[i]->Text_0.handle->0
}

/// The children of the old list are shown in their order, before `next`
/// where that is given, and no child is shown twice.
pub open spec fn shows(shown: Seq<Handle>, old: ListModel, next: Option<Handle>) -> bool {
    &&& shown.no_duplicates()
    &&& forall|a: int| 0 <= a < old.nodes.len() ==> shown.contains(#[trigger] node_of(old, a))
    &&& forall|a: int, b: int|
        #![trigger node_of(old, a), node_of(old, b)]
        0 <= a < b < old.nodes.len() ==> position(shown, node_of(old, a)) < position(shown, node_of(old, b))
    &&& next matches Some(sibling) ==> shown.contains(sibling) && forall|a: int|
        0 <= a < old.nodes.len() ==> position(shown, #[trigger] node_of(old, a)) < position(shown, sibling)
}

/// The children of the new list that are new have nodes that are new: they
/// are not shown, and no two of them share a node.
pub open spec fn brings_new_nodes(shown: Seq<Handle>, old: ListModel, out: ListModel) -> bool {
    &&& forall|i: int|
        0 <= i < out.nodes.len() && find(old.keys, out.keys[i]) is None ==> !shown.contains(
            #[trigger] node_of(out, i),
        )
    &&& forall|i: int, j: int|
        #![trigger node_of(out, i), node_of(out, j)]
        0 <= i < j < out.nodes.len() && find(old.keys, out.keys[i]) is None && find(old.keys, out.keys[j]) is None
            ==> node_of(out, i) != node_of(out, j)
}

/// What is shown while the children `out[from..]` have been patched and the
/// children before them have not: nothing is shown twice; what was shown
/// still is, in the order it had; the children that were patched are shown
/// in their order, after every old child that is yet to be patched and before
/// `next`; and nothing else is shown.
pub open spec fn arranged(
    before: Seq<Handle>,
    shown: Seq<Handle>,
    old: ListModel,
    out: ListModel,
    next: Option<Handle>,
    from: int,
) -> bool {
    &&& shown.no_duplicates()
    &&& forall|x: Handle| before.contains(x) ==> #[trigger] shown.contains(x)
    &&& forall|x: Handle, y: Handle|
        #![trigger position(shown, x), position(shown, y)]
        before.contains(x) && before.contains(y) ==> (position(shown, x) < position(shown, y) <==> position(
            before,
            x,
        ) < position(before, y))
    &&& forall|a: int| from <= a < out.nodes.len() ==> shown.contains(#[trigger] node_of(out, a))
    &&& forall|a: int, b: int|
        #![trigger node_of(out, a), node_of(out, b)]
        from <= a < b < out.nodes.len() ==> position(shown, node_of(out, a)) < position(shown, node_of(out, b))
    &&& forall|j: int, a: int|
        #![trigger node_of(out, j), node_of(out, a)]
        0 <= j < from <= a < out.nodes.len() && find(old.keys, out.keys[j]) is Some ==> position(
            shown,
            node_of(out, j),
        ) < position(shown, node_of(out, a))
    &&& next matches Some(sibling) ==> forall|a: int|
        from <= a < out.nodes.len() ==> position(shown, #[trigger] node_of(out, a)) < position(shown, sibling)
    &&& forall|x: Handle|
        #[trigger] shown.contains(x) ==> before.contains(x) || exists|a: int|
            from <= a < out.nodes.len() && find(old.keys, out.keys[a]) is None && #[trigger] node_of(out, a) == x
}

/// What a list of texts that is patched against an old list of texts has
/// to do with it: the child under a key that the old list held has the node
/// of the old child.
pub proof fn lemma_kept_child_keeps_its_node(out: ListModel, new: ListModel, old: ListModel, depth: nat, i: int)
    requires
        is_texts(old),
        is_texts(out),
        list_is_patch_of(out, new, Some(old), depth),
        0 <= i < out.nodes.len(),
        find(old.keys, out.keys[i]) is Some,
    ensures
        node_of(out, i) == node_of(old, find(old.keys, out.keys[i])->0),
        0 <= find(old.keys, out.keys[i])->0 < old.keys.len(),
        old.keys[find(old.keys, out.keys[i])->0] == out.keys[i],
{
    let j = find(old.keys, out.keys[i])->0;
    assert(old.nodes[j] is Text);
    assert(crate::patching::is_patch_of(out.nodes[i], new.nodes[i], lookup_node(old, out.keys[i]), depth));
}

/// The effects of patching one child of a list of texts, as far as they
/// change what is shown: none for a child that was there, and the placing of
/// its node for a child that is new.
pub proof fn lemma_text_child_shown(
    shown: Seq<Handle>,
    out: ListModel,
    new: ListModel,
    old: ListModel,
    parent: Handle,
    sibling: Option<Handle>,
    depth: nat,
    i: int,
)
    requires
        is_texts(old),
        is_texts(out),
        list_is_patch_of(out, new, Some(old), depth),
        0 <= i < out.nodes.len(),
    ensures
        shown_after_all(
            shown,
            patch_effects(out.nodes[i], new.nodes[i], lookup_node(old, out.keys[i]), parent, sibling),
            parent,
        ) == if find(old.keys, out.keys[i]) is Some {
            shown
        } else {
            shown_after(shown, placed(parent, node_of(out, i), sibling)[0], parent)
        },
{
    let text = out.nodes[i]->Text_0;
    let effects = patch_effects(out.nodes[i], new.nodes[i], lookup_node(old, out.keys[i]), parent, sibling);
    assert(crate::patching::is_patch_of(out.nodes[i], new.nodes[i], lookup_node(old, out.keys[i]), depth));
    assert(new.nodes[i] is Text);
    assert(shown_after_all(shown, Seq::<EffectModel>::empty(), parent) == shown);
    if find(old.keys, out.keys[i]) is Some {
        let j = find(old.keys, out.keys[i])->0;
        assert(old.nodes[j] is Text);
        if effects.len() > 0 {
            assert(effects =~= seq![effects[0]]);
            lemma_shown_one(shown, effects[0], parent);
        }
    } else {
        let create = EffectModel::CreateText { node: text.handle->0, content: text.content };
        let place = placed(parent, text.handle->0, sibling)[0];
        assert(placed(parent, text.handle->0, sibling) =~= seq![place]);
        assert(effects =~= seq![create] + seq![place]);
        lemma_shown_concat(shown, seq![create], seq![place], parent);
        lemma_shown_one(shown, create, parent);
        lemma_shown_one(shown, place, parent);
    }
}

/// Placing the node of a new child keeps the children arranged, if it is
/// placed after every old child that is yet to be patched and before every
/// child that was patched, and before `next`.
proof fn lemma_placing_keeps_arranged(
    before: Seq<Handle>,
    shown: Seq<Handle>,
    old: ListModel,
    out: ListModel,
    next: Option<Handle>,
    from: int,
    at: int,
)
    requires
        is_texts(out),
        0 <= from < out.nodes.len(),
        arranged(before, shown, old, out, next, from + 1),
        find(old.keys, out.keys[from]) is None,
        !shown.contains(node_of(out, from)),
        0 <= at <= shown.len(),
        forall|a: int| from < a < out.nodes.len() ==> at <= position(shown, #[trigger] node_of(out, a)),
        forall|j: int|
            0 <= j < from && find(old.keys, out.keys[j]) is Some ==> position(shown, #[trigger] node_of(out, j))
                < at,
        next matches Some(sibling) ==> at <= position(shown, sibling),
        forall|j: int|
            0 <= j < from && find(old.keys, out.keys[j]) is Some ==> before.contains(#[trigger] node_of(out, j)),
        next matches Some(sibling) ==> before.contains(sibling),
    ensures
        arranged(before, shown.insert(at, node_of(out, from)), old, out, next, from),
{
    let node = node_of(out, from);
    let after = shown.insert(at, node);
    lemma_put_in(shown, at, node);
    assert forall|x: Handle| before.contains(x) implies #[trigger] after.contains(x) by {
        assert(shown.contains(x));
    }
    assert forall|x: Handle, y: Handle|
        #![trigger position(after, x), position(after, y)]
        before.contains(x) && before.contains(y) implies (position(after, x) < position(after, y) <==> position(
        before,
        x,
    ) < position(before, y)) by {
        assert(shown.contains(x));
        assert(shown.contains(y));
        assert(position(shown, x) < position(shown, y) <==> position(before, x) < position(before, y));
    }
    assert forall|a: int| from <= a < out.nodes.len() implies after.contains(#[trigger] node_of(out, a)) by {
        if a > from {
            assert(shown.contains(node_of(out, a)));
        }
    }
    assert forall|a: int, b: int|
        #![trigger node_of(out, a), node_of(out, b)]
        from <= a < b < out.nodes.len() implies position(after, node_of(out, a)) < position(
        after,
        node_of(out, b),
    ) by {
        assert(shown.contains(node_of(out, b)));
        assert(at <= position(shown, node_of(out, b)));
        if a > from {
            assert(shown.contains(node_of(out, a)));
            assert(position(shown, node_of(out, a)) < position(shown, node_of(out, b)));
        }
    }
    assert forall|j: int, a: int|
        #![trigger node_of(out, j), node_of(out, a)]
        0 <= j < from <= a < out.nodes.len() && find(old.keys, out.keys[j]) is Some implies position(
        after,
        node_of(out, j),
    ) < position(after, node_of(out, a)) by {
        assert(before.contains(node_of(out, j)));
        assert(shown.contains(node_of(out, j)));
        assert(position(shown, node_of(out, j)) < at);
        if a > from {
            assert(shown.contains(node_of(out, a)));
            assert(position(shown, node_of(out, j)) < position(shown, node_of(out, a)));
        }
    }
    match next {
        Some(sibling) => {
            assert(shown.contains(sibling));
            assert forall|a: int| from <= a < out.nodes.len() implies position(
                after,
                #[trigger] node_of(out, a),
            ) < position(after, sibling) by {
                if a > from {
                    assert(shown.contains(node_of(out, a)));
                    assert(position(shown, node_of(out, a)) < position(shown, sibling));
                }
            }
        },
        None => {},
    }
    assert forall|x: Handle| #[trigger] after.contains(x) implies before.contains(x) || exists|a: int|
        from <= a < out.nodes.len() && find(old.keys, out.keys[a]) is None && #[trigger] node_of(out, a) == x by {
        if x == node {
            assert(node_of(out, from) == x);
        } else {
            assert(shown.contains(x));
            if !before.contains(x) {
                let a = choose|a: int|
                    from + 1 <= a < out.nodes.len() && find(old.keys, out.keys[a]) is None && #[trigger] node_of(
                        out,
                        a,
                    ) == x;
                assert(node_of(out, a) == x);
            }
        }
    }
}

/// While a list of texts is patched against an old list of texts whose
/// children kept their order, what is shown stays arranged.
pub proof fn lemma_children_are_arranged(
    before: Seq<Handle>,
    out: ListModel,
    new: ListModel,
    old: ListModel,
    parent: Handle,
    next: Option<Handle>,
    depth: nat,
    from: int,
)
    requires
        is_texts(old),
        is_texts(out),
        list_is_patch_of(out, new, Some(old), depth),
        keeps_order(old.keys, out.keys),
        shows(before, old, next),
        brings_new_nodes(before, old, out),
        0 <= from <= out.nodes.len(),
    ensures
        arranged(
            before,
            shown_after_all(
                before,
                suffix_patch_effects(out.nodes.skip(from), new, old, parent, next),
                parent,
            ),
            old,
            out,
            next,
            from,
        ),
    decreases out.nodes.len() - from,
{
    let n = out.nodes.len() as int;
    let done = out.nodes.skip(from);
    let effects = suffix_patch_effects(done, new, old, parent, next);
    if from == n {
        assert(effects =~= none_effects());
        assert(shown_after_all(before, effects, parent) == before);
    } else {
        lemma_children_are_arranged(before, out, new, old, parent, next, depth, from + 1);
        let rest = out.nodes.skip(from + 1);
        let earlier = suffix_patch_effects(rest, new, old, parent, next);
        let shown = shown_after_all(before, earlier, parent);
        let sibling = first_node(rest, next);
        let child = patch_effects(out.nodes[from], new.nodes[from], lookup_node(old, out.keys[from]), parent, sibling);
        assert(done.drop_first() =~= rest);
        assert(done.first() == out.nodes[from]);
        assert(new.nodes.len() - done.len() == from);
        assert(effects == earlier + child);
        lemma_shown_concat(before, earlier, child, parent);
        lemma_text_child_shown(shown, out, new, old, parent, sibling, depth, from);
        let last = shown_after_all(before, effects, parent);
        assert forall|j: int| 0 <= j < n && find(old.keys, out.keys[j]) is Some implies before.contains(
            #[trigger] node_of(out, j),
        ) by {
            lemma_kept_child_keeps_its_node(out, new, old, depth, j);
            assert(before.contains(node_of(old, find(old.keys, out.keys[j])->0)));
        }
        assert forall|j: int, k: int|
            #![trigger node_of(out, j), node_of(out, k)]
            0 <= j < k < n && find(old.keys, out.keys[j]) is Some && find(old.keys, out.keys[k]) is Some implies position(
            before,
            node_of(out, j),
        ) < position(before, node_of(out, k)) by {
            lemma_kept_child_keeps_its_node(out, new, old, depth, j);
            lemma_kept_child_keeps_its_node(out, new, old, depth, k);
            let a = find(old.keys, out.keys[j])->0;
            let b = find(old.keys, out.keys[k])->0;
            assert(a < b);
            assert(position(before, node_of(old, a)) < position(before, node_of(old, b)));
        }
        if find(old.keys, out.keys[from]) is Some {
            assert(last == shown);
            let node = node_of(out, from);
            lemma_kept_child_keeps_its_node(out, new, old, depth, from);
            assert(before.contains(node));
            assert forall|a: int, b: int|
                #![trigger node_of(out, a), node_of(out, b)]
                from <= a < b < n implies position(shown, node_of(out, a)) < position(shown, node_of(out, b)) by {
                if a == from {
                    assert(position(shown, node_of(out, from)) < position(shown, node_of(out, b)));
                }
            }
            assert forall|j: int, a: int|
                #![trigger node_of(out, j), node_of(out, a)]
                0 <= j < from <= a < n && find(old.keys, out.keys[j]) is Some implies position(
                shown,
                node_of(out, j),
            ) < position(shown, node_of(out, a)) by {
                if a == from {
                    assert(before.contains(node_of(out, j)));
                    assert(position(before, node_of(out, j)) < position(before, node_of(out, from)));
                    assert(position(shown, node_of(out, j)) < position(shown, node_of(out, from)) <==> position(
                        before,
                        node_of(out, j),
                    ) < position(before, node_of(out, from)));
                }
            }
            match next {
                Some(after) => {
                    let a = find(old.keys, out.keys[from])->0;
                    assert(position(before, node_of(old, a)) < position(before, after));
                    assert(position(shown, node) < position(shown, after) <==> position(before, node) < position(
                        before,
                        after,
                    ));
                },
                None => {},
            }
            assert forall|x: Handle| #[trigger] shown.contains(x) implies before.contains(x) || exists|a: int|
                from <= a < n && find(old.keys, out.keys[a]) is None && #[trigger] node_of(out, a) == x by {
                if !before.contains(x) {
                    let a = choose|a: int|
                        from + 1 <= a < n && find(old.keys, out.keys[a]) is None && #[trigger] node_of(out, a) == x;
                    assert(node_of(out, a) == x);
                }
            }
        } else {
            let node = node_of(out, from);
            assert(!before.contains(node));
            if shown.contains(node) {
                let a = choose|a: int|
                    from + 1 <= a < n && find(old.keys, out.keys[a]) is None && #[trigger] node_of(out, a) == node;
                assert(node_of(out, from) != node_of(out, a));
            }
            assert(taken_out(shown, node) == shown);
            let at = match sibling {
                Some(after) => position(shown, after),
                None => shown.len() as int,
            };
            if from + 1 < n {
                assert(rest[0] == out.nodes[from + 1]);
                assert(sibling == Some(node_of(out, from + 1)));
                assert(shown.contains(node_of(out, from + 1)));
                assert forall|a: int| from < a < n implies at <= position(shown, #[trigger] node_of(out, a)) by {
                    if a > from + 1 {
                        assert(position(shown, node_of(out, from + 1)) < position(shown, node_of(out, a)));
                    }
                }
                assert forall|j: int| 0 <= j < from && find(old.keys, out.keys[j]) is Some implies position(
                    shown,
                    #[trigger] node_of(out, j),
                ) < at by {
                    assert(position(shown, node_of(out, j)) < position(shown, node_of(out, from + 1)));
                }
                match next {
                    Some(after) => {
                        assert(position(shown, node_of(out, from + 1)) < position(shown, after));
                    },
                    None => {},
                }
            } else {
                assert(rest.len() == 0);
                assert(sibling == next);
                match next {
                    Some(after) => {
                        assert(before.contains(after));
                        assert(shown.contains(after));
                        assert forall|j: int| 0 <= j < from && find(old.keys, out.keys[j]) is Some implies position(
                            shown,
                            #[trigger] node_of(out, j),
                        ) < at by {
                            lemma_kept_child_keeps_its_node(out, new, old, depth, j);
                            let a = find(old.keys, out.keys[j])->0;
                            assert(position(before, node_of(old, a)) < position(before, after));
                            assert(before.contains(node_of(out, j)));
                            assert(position(shown, node_of(out, j)) < position(shown, after) <==> position(
                                before,
                                node_of(out, j),
                            ) < position(before, after));
                        }
                    },
                    None => {
                        assert forall|j: int| 0 <= j < from && find(old.keys, out.keys[j]) is Some implies position(
                            shown,
                            #[trigger] node_of(out, j),
                        ) < at by {
                            assert(before.contains(node_of(out, j)));
                            assert(shown.contains(node_of(out, j)));
                        }
                    },
                }
            }
            match sibling {
                Some(after) => {
                    assert(shown.contains(after));
                    assert(last == shown.insert(at, node));
                },
                None => {
                    assert(shown.push(node) =~= shown.insert(at, node));
                    assert(last == shown.insert(at, node));
                },
            }
            lemma_placing_keeps_arranged(before, shown, old, out, next, from, at);
        }
    }
}

/// One of the trees is a text with the node.
pub open spec fn is_node_of(nodes: Seq<Tree>, node: Handle) -> bool {
    exists|k: int| 0 <= k < nodes.len() && (#[trigger] nodes[k])->Text_0.handle->0 == node
}

/// Taking texts out of `parent` takes their nodes away and leaves every
/// other child where it stood among the others.
pub proof fn lemma_texts_are_taken_out(shown: Seq<Handle>, nodes: Seq<Tree>, parent: Handle)
    requires
        shown.no_duplicates(),
        forall|k: int| 0 <= k < nodes.len() ==> (#[trigger] nodes[k]) is Text,
    ensures
        ({
            let after = shown_after_all(shown, list_remove_effects(nodes, parent), parent);
            &&& after.no_duplicates()
            &&& forall|x: Handle| #[trigger] after.contains(x) <==> shown.contains(x) && !is_node_of(nodes, x)
            &&& forall|x: Handle, y: Handle|
                #![trigger position(after, x), position(after, y)]
                after.contains(x) && after.contains(y) ==> (position(after, x) < position(after, y) <==> position(
                    shown,
                    x,
                ) < position(shown, y))
        }),
    decreases nodes.len(),
{
    let after = shown_after_all(shown, list_remove_effects(nodes, parent), parent);
    if nodes.len() == 0 {
        assert(list_remove_effects(nodes, parent) =~= none_effects());
        assert(after == shown);
    } else {
        let front = nodes.drop_last();
        assert forall|k: int| 0 <= k < front.len() implies (#[trigger] front[k]) is Text by {
            assert(front[k] == nodes[k]);
        }
        lemma_texts_are_taken_out(shown, front, parent);
        let middle = shown_after_all(shown, list_remove_effects(front, parent), parent);
        let node = nodes.last()->Text_0.handle->0;
        let leave = EffectModel::RemoveChild { parent, node };
        assert(nodes.last().remove_effects(parent) =~= seq![leave]);
        lemma_shown_concat(shown, list_remove_effects(front, parent), seq![leave], parent);
        lemma_shown_one(middle, leave, parent);
        assert(after == taken_out(middle, node));
        lemma_taken_out(middle, node);
        assert forall|x: Handle| #[trigger] after.contains(x) <==> shown.contains(x) && !is_node_of(nodes, x) by {
            if is_node_of(nodes, x) {
                let k = choose|k: int| 0 <= k < nodes.len() && (#[trigger] nodes[k])->Text_0.handle->0 == x;
                if k < nodes.len() - 1 {
                    assert(front[k] == nodes[k]);
                    assert(is_node_of(front, x));
                }
            }
            if is_node_of(front, x) {
                let k = choose|k: int| 0 <= k < front.len() && (#[trigger] front[k])->Text_0.handle->0 == x;
                assert(nodes[k] == front[k]);
                assert(is_node_of(nodes, x));
            }
            if x == node {
                assert(nodes[nodes.len() - 1]->Text_0.handle->0 == x);
                assert(is_node_of(nodes, x));
            }
        }
        assert forall|x: Handle, y: Handle|
            #![trigger position(after, x), position(after, y)]
            after.contains(x) && after.contains(y) implies (position(after, x) < position(after, y) <==> position(
            shown,
            x,
        ) < position(shown, y)) by {
            assert(middle.contains(x));
            assert(middle.contains(y));
            assert(position(middle, x) < position(middle, y) <==> position(shown, x) < position(shown, y));
        }
    }
}

/// A list of texts whose old children kept their order is shown in its new
/// order once it is patched: every child stands before every child that
/// follows it in the list, and before `next`; the old children whose keys
/// are gone are shown no longer; and what else was shown is shown still, in
/// the order it had.
pub proof fn law_kept_order_shows_the_new_order(
    before: Seq<Handle>,
    out: ListModel,
    new: ListModel,
    old: ListModel,
    parent: Handle,
    next: Option<Handle>,
    depth: nat,
)
    requires
        is_texts(old),
        is_texts(out),
        list_is_patch_of(out, new, Some(old), depth),
        keeps_order(old.keys, out.keys),
        shows(before, old, next),
        brings_new_nodes(before, old, out),
    ensures
        ({
            let shown = shown_after_all(before, list_patch_effects(out, new, Some(old), parent, next), parent);
            &&& shown.no_duplicates()
            &&& forall|i: int, j: int|
                #![trigger node_of(out, i), node_of(out, j)]
                0 <= i < j < out.nodes.len() ==> stands_before(shown, node_of(out, i), node_of(out, j))
            &&& forall|i: int| 0 <= i < out.nodes.len() ==> shown.contains(#[trigger] node_of(out, i))
            &&& next matches Some(sibling) ==> forall|i: int|
                0 <= i < out.nodes.len() ==> stands_before(shown, #[trigger] node_of(out, i), sibling)
            &&& forall|a: int|
                0 <= a < old.nodes.len() && !out.keys.contains(old.keys[a]) ==> !shown.contains(
                    #[trigger] node_of(old, a),
                )
            &&& forall|x: Handle|
                before.contains(x) && !is_node_of(old.nodes, x) ==> #[trigger] shown.contains(x)
            &&& forall|x: Handle, y: Handle|
                #![trigger position(shown, x), position(shown, y)]
                before.contains(x) && before.contains(y) && shown.contains(x) && shown.contains(y) ==> (position(
                    shown,
                    x,
                ) < position(shown, y) <==> position(before, x) < position(before, y))
        }),
{
    let n = out.nodes.len() as int;
    let patched = suffix_patch_effects(out.nodes, new, old, parent, next);
    let stale = remaining(old, out.keys, 0);
    let removed = list_remove_effects(stale.nodes, parent);
    law_kept_order_moves_nothing(out, new, old, parent, next);
    lemma_children_are_arranged(before, out, new, old, parent, next, depth, 0);
    assert(out.nodes.skip(0) =~= out.nodes);
    let middle = shown_after_all(before, patched, parent);
    lemma_shown_concat(before, patched, removed, parent);
    let shown = shown_after_all(before, list_patch_effects(out, new, Some(old), parent, next), parent);
    assert(shown == shown_after_all(middle, removed, parent));
    lemma_remaining(old, out.keys, 0);
    law_stale_children_are_removed_once(old, out.keys);
    assert forall|k: int| 0 <= k < stale.nodes.len() implies (#[trigger] stale.nodes[k]) is Text by {
        assert(held_by(old, stale.nodes[k]));
        let a = choose|a: int| 0 <= a < old.nodes.len() && #[trigger] old.nodes[a] == stale.nodes[k];
        assert(old.nodes[a] is Text);
    }
    lemma_texts_are_taken_out(middle, stale.nodes, parent);
    assert forall|a: int, b: int|
        #![trigger node_of(old, a), node_of(old, b)]
        0 <= a < old.nodes.len() && 0 <= b < old.nodes.len() && a != b implies node_of(old, a) != node_of(old, b) by {
        if a < b {
            assert(position(before, node_of(old, a)) < position(before, node_of(old, b)));
        } else {
            assert(position(before, node_of(old, b)) < position(before, node_of(old, a)));
        }
    }
    assert forall|i: int| 0 <= i < n implies !is_node_of(stale.nodes, #[trigger] node_of(out, i)) by {
        if is_node_of(stale.nodes, node_of(out, i)) {
            let k = choose|k: int|
                0 <= k < stale.nodes.len() && (#[trigger] stale.nodes[k])->Text_0.handle->0 == node_of(out, i);
            assert(held_by(old, stale.nodes[k]));
            let a = choose|a: int| 0 <= a < old.nodes.len() && #[trigger] old.nodes[a] == stale.nodes[k];
            assert(node_of(old, a) == node_of(out, i));
            assert(before.contains(node_of(old, a)));
            assert(find(old.keys, out.keys[i]) is Some);
            lemma_kept_child_keeps_its_node(out, new, old, depth, i);
            let b = find(old.keys, out.keys[i])->0;
            assert(a == b);
            lemma_find_unique(stale.keys, stale.keys[k], k);
            assert(lookup_node(stale, stale.keys[k]) == Some(stale.nodes[k]));
            assert(!out.keys.contains(stale.keys[k]));
            assert(lookup_node(old, stale.keys[k]) == Some(stale.nodes[k]));
            let c = find(old.keys, stale.keys[k])->0;
            assert(old.nodes[c] == stale.nodes[k]);
            assert(node_of(old, c) == node_of(old, a));
            assert(c == a);
            assert(old.keys[a] == stale.keys[k]);
            assert(out.keys[i] == old.keys[b]);
            assert(out.keys.contains(stale.keys[k]));
        }
    }
    assert forall|i: int| 0 <= i < n implies shown.contains(#[trigger] node_of(out, i)) by {
        assert(middle.contains(node_of(out, i)));
    }
    assert forall|i: int, j: int|
        #![trigger node_of(out, i), node_of(out, j)]
        0 <= i < j < n implies stands_before(shown, node_of(out, i), node_of(out, j)) by {
        assert(shown.contains(node_of(out, i)));
        assert(shown.contains(node_of(out, j)));
        assert(position(middle, node_of(out, i)) < position(middle, node_of(out, j)));
        assert(position(shown, node_of(out, i)) < position(shown, node_of(out, j)) <==> position(
            middle,
            node_of(out, i),
        ) < position(middle, node_of(out, j)));
    }
    match next {
        Some(sibling) => {
            assert(before.contains(sibling));
            assert(middle.contains(sibling));
            if is_node_of(stale.nodes, sibling) {
                let k = choose|k: int|
                    0 <= k < stale.nodes.len() && (#[trigger] stale.nodes[k])->Text_0.handle->0 == sibling;
                assert(held_by(old, stale.nodes[k]));
                let a = choose|a: int| 0 <= a < old.nodes.len() && #[trigger] old.nodes[a] == stale.nodes[k];
                assert(position(before, node_of(old, a)) < position(before, sibling));
            }
            assert(shown.contains(sibling));
            assert forall|i: int| 0 <= i < n implies stands_before(shown, #[trigger] node_of(out, i), sibling) by {
                assert(shown.contains(node_of(out, i)));
                assert(position(middle, node_of(out, i)) < position(middle, sibling));
                assert(position(shown, node_of(out, i)) < position(shown, sibling) <==> position(
                    middle,
                    node_of(out, i),
                ) < position(middle, sibling));
            }
        },
        None => {},
    }
    assert forall|a: int| 0 <= a < old.nodes.len() && !out.keys.contains(old.keys[a]) implies !shown.contains(
        #[trigger] node_of(old, a),
    ) by {
        lemma_find_unique(old.keys, old.keys[a], a);
        assert(lookup_node(stale, old.keys[a]) == Some(old.nodes[a]));
        let k = find(stale.keys, old.keys[a])->0;
        assert(stale.nodes[k] == old.nodes[a]);
        assert(is_node_of(stale.nodes, node_of(old, a)));
    }
    assert forall|x: Handle| before.contains(x) && !is_node_of(old.nodes, x) implies #[trigger] shown.contains(
        x,
    ) by {
        assert(middle.contains(x));
        if is_node_of(stale.nodes, x) {
            let k = choose|k: int| 0 <= k < stale.nodes.len() && (#[trigger] stale.nodes[k])->Text_0.handle->0 == x;
            assert(held_by(old, stale.nodes[k]));
            let a = choose|a: int| 0 <= a < old.nodes.len() && #[trigger] old.nodes[a] == stale.nodes[k];
            assert(old.nodes[a]->Text_0.handle->0 == x);
            assert(is_node_of(old.nodes, x));
        }
    }
    assert forall|x: Handle, y: Handle|
        #![trigger position(shown, x), position(shown, y)]
        before.contains(x) && before.contains(y) && shown.contains(x) && shown.contains(y) implies (position(
        shown,
        x,
    ) < position(shown, y) <==> position(before, x) < position(before, y)) by {
        assert(middle.contains(x));
        assert(middle.contains(y));
        assert(position(middle, x) < position(middle, y) <==> position(before, x) < position(before, y));
        assert(position(shown, x) < position(shown, y) <==> position(middle, x) < position(middle, y));
    }
}

/// The effects of patching the children `out[from..]` begin with those of
/// patching the children `out[later..]`, for any `later` further on.
proof fn lemma_suffix_grows(
    out: ListModel,
    new: ListModel,
    old: ListModel,
    parent: Handle,
    next: Option<Handle>,
    from: int,
    later: int,
)
    requires
        out.nodes.len() == new.nodes.len(),
        0 <= from <= later <= out.nodes.len(),
    ensures
        suffix_patch_effects(out.nodes.skip(later), new, old, parent, next).len() <= suffix_patch_effects(
            out.nodes.skip(from),
            new,
            old,
            parent,
            next,
        ).len(),
        forall|k: int|
            0 <= k < suffix_patch_effects(out.nodes.skip(later), new, old, parent, next).len()
                ==> #[trigger] suffix_patch_effects(out.nodes.skip(from), new, old, parent, next)[k]
                == suffix_patch_effects(out.nodes.skip(later), new, old, parent, next)[k],
    decreases later - from,
{
    if from < later {
        lemma_suffix_grows(out, new, old, parent, next, from + 1, later);
        let done = out.nodes.skip(from);
        assert(done.drop_first() =~= out.nodes.skip(from + 1));
    }
}

/// The node of a new child of a patched list of texts is handed out by the
/// first effect of its patch, which follows the effects of patching the
/// children after it.
proof fn lemma_new_child_is_introduced(
    out: ListModel,
    new: ListModel,
    old: ListModel,
    parent: Handle,
    next: Option<Handle>,
    depth: nat,
    i: int,
)
    requires
        is_texts(old),
        is_texts(out),
        list_is_patch_of(out, new, Some(old), depth),
        0 <= i < out.nodes.len(),
        find(old.keys, out.keys[i]) is None,
    ensures
        ({
            let at = suffix_patch_effects(out.nodes.skip(i + 1), new, old, parent, next).len() as int;
            let effects = suffix_patch_effects(out.nodes, new, old, parent, next);
            &&& at < effects.len()
            &&& introduced(effects[at]) == Some(node_of(out, i))
        }),
{
    let rest = out.nodes.skip(i + 1);
    let done = out.nodes.skip(i);
    let earlier = suffix_patch_effects(rest, new, old, parent, next);
    let child = patch_effects(
        out.nodes[i],
        new.nodes[i],
        lookup_node(old, out.keys[i]),
        parent,
        first_node(rest, next),
    );
    assert(done.drop_first() =~= rest);
    assert(done.first() == out.nodes[i]);
    assert(new.nodes.len() - done.len() == i);
    assert(suffix_patch_effects(done, new, old, parent, next) == earlier + child);
    assert(crate::patching::is_patch_of(out.nodes[i], new.nodes[i], lookup_node(old, out.keys[i]), depth));
    assert(new.nodes[i] is Text);
    let text = out.nodes[i]->Text_0;
    assert(child =~= seq![EffectModel::CreateText { node: text.handle->0, content: text.content }] + placed(
        parent,
        text.handle->0,
        first_node(rest, next),
    ));
    assert((earlier + child)[earlier.len() as int] == child[0]);
    lemma_suffix_grows(out, new, old, parent, next, 0, i);
    assert(out.nodes.skip(0) =~= out.nodes);
}

/// With handles numbered by their place in the record, the new children of
/// a patched list of texts have nodes that are new: no older than the patch,
/// and no two the same.
pub proof fn law_numbered_children_bring_new_nodes(
    before: Seq<Handle>,
    record: Seq<EffectModel>,
    out: ListModel,
    new: ListModel,
    old: ListModel,
    parent: Handle,
    next: Option<Handle>,
    depth: nat,
)
    requires
        is_texts(old),
        is_texts(out),
        list_is_patch_of(out, new, Some(old), depth),
        numbered(record + list_patch_effects(out, new, Some(old), parent, next)),
        forall|x: Handle| #[trigger] before.contains(x) ==> x < record.len(),
    ensures
        brings_new_nodes(before, old, out),
{
    let effects = suffix_patch_effects(out.nodes, new, old, parent, next);
    let whole = record + list_patch_effects(out, new, Some(old), parent, next);
    assert forall|i: int| 0 <= i < out.nodes.len() && find(old.keys, out.keys[i]) is None implies node_of(out, i)
        == record.len() + suffix_patch_effects(out.nodes.skip(i + 1), new, old, parent, next).len() by {
        lemma_new_child_is_introduced(out, new, old, parent, next, depth, i);
        let at = suffix_patch_effects(out.nodes.skip(i + 1), new, old, parent, next).len() as int;
        assert(whole[record.len() + at] == effects[at]);
    }
    assert forall|i: int| 0 <= i < out.nodes.len() && find(old.keys, out.keys[i]) is None implies !before.contains(
        #[trigger] node_of(out, i),
    ) by {
        assert(node_of(out, i) == record.len() + suffix_patch_effects(
            out.nodes.skip(i + 1),
            new,
            old,
            parent,
            next,
        ).len());
    }
    assert forall|i: int, j: int|
        #![trigger node_of(out, i), node_of(out, j)]
        0 <= i < j < out.nodes.len() && find(old.keys, out.keys[i]) is None && find(old.keys, out.keys[j]) is None implies node_of(
        out,
        i,
    ) != node_of(out, j) by {
        assert(node_of(out, i) == record.len() + suffix_patch_effects(
            out.nodes.skip(i + 1),
            new,
            old,
            parent,
            next,
        ).len());
        assert(node_of(out, j) == record.len() + suffix_patch_effects(
            out.nodes.skip(j + 1),
            new,
            old,
            parent,
            next,
        ).len());
        lemma_new_child_is_introduced(out, new, old, parent, next, depth, j);
        lemma_suffix_grows(out, new, old, parent, next, i + 1, j);
        let rest = out.nodes.skip(j + 1);
        let done = out.nodes.skip(j);
        assert(done.drop_first() =~= rest);
        assert(new.nodes.len() - done.len() == j);
        assert(crate::patching::is_patch_of(out.nodes[j], new.nodes[j], lookup_node(old, out.keys[j]), depth));
        let text = out.nodes[j]->Text_0;
        let child = patch_effects(
            out.nodes[j],
            new.nodes[j],
            lookup_node(old, out.keys[j]),
            parent,
            first_node(rest, next),
        );
        assert(child =~= seq![EffectModel::CreateText { node: text.handle->0, content: text.content }] + placed(
            parent,
            text.handle->0,
            first_node(rest, next),
        ));
        assert(suffix_patch_effects(done, new, old, parent, next).len() == suffix_patch_effects(
            rest,
            new,
            old,
            parent,
            next,
        ).len() + child.len());
    }
}

/// A list of texts that is built where no list was is shown in its order
/// once it is patched: every child stands before every child that follows it
/// in the list, and before `next`; and what was shown before is shown still,
/// in the order it had.
pub proof fn law_new_list_is_shown_in_its_order(
    before: Seq<Handle>,
    out: ListModel,
    new: ListModel,
    parent: Handle,
    next: Option<Handle>,
    depth: nat,
)
    requires
        is_texts(out),
        list_is_patch_of(out, new, None, depth),
        before.no_duplicates(),
        next matches Some(sibling) ==> before.contains(sibling),
        brings_new_nodes(before, no_children(), out),
    ensures
        ({
            let shown = shown_after_all(before, list_patch_effects(out, new, None, parent, next), parent);
            &&& shown.no_duplicates()
            &&& forall|i: int, j: int|
                #![trigger node_of(out, i), node_of(out, j)]
                0 <= i < j < out.nodes.len() ==> stands_before(shown, node_of(out, i), node_of(out, j))
            &&& forall|i: int| 0 <= i < out.nodes.len() ==> shown.contains(#[trigger] node_of(out, i))
            &&& next matches Some(sibling) ==> forall|i: int|
                0 <= i < out.nodes.len() ==> stands_before(shown, #[trigger] node_of(out, i), sibling)
            &&& forall|x: Handle| before.contains(x) ==> #[trigger] shown.contains(x)
            &&& forall|x: Handle, y: Handle|
                #![trigger position(shown, x), position(shown, y)]
                before.contains(x) && before.contains(y) ==> (position(shown, x) < position(shown, y) <==> position(
                    before,
                    x,
                ) < position(before, y))
        }),
{
    let old = no_children();
    assert forall|key: Seq<char>| lookup_node(old, key) is None && find(old.keys, key) is None by {}
    assert(list_is_patch_of(out, new, Some(old), depth));
    assert(keeps_order(old.keys, out.keys));
    assert(!dirty_order(old.keys, out.keys));
    crate::laws::law_no_key_gone_removes_nothing(old, out.keys, parent);
    let built = suffix_patch_effects(out.nodes, new, old, parent, next);
    assert(list_patch_effects(out, new, Some(old), parent, next) =~= built);
    assert(list_patch_effects(out, new, None, parent, next) == built);
    law_kept_order_shows_the_new_order(before, out, new, old, parent, next, depth);
    let shown = shown_after_all(before, built, parent);
    assert forall|x: Handle| before.contains(x) implies #[trigger] shown.contains(x) by {
        assert(!is_node_of(old.nodes, x));
    }
}

} // verus!
