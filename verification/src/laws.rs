//! What holds of every patch.

use crate::attributes::lemma_leftover;
use crate::model::ComponentModel;
use crate::model::list_remove_effects;
use crate::model::ListModel;
use crate::model::none_effects;
use crate::model::Pass;
use crate::model::Tree;
use crate::model::unset_effects;
use crate::ordered::find;
use crate::ordered::lemma_find_absent;
use crate::ordered::lemma_find_unique;
use crate::ordered::names;
use crate::patching::attrs_effects;
use crate::patching::child_is_patch_of;
use crate::patching::child_patch_effects;
use crate::patching::component_is_pass_of;
use crate::patching::component_is_patch_of;
use crate::patching::component_patch_effects;
use crate::patching::component_render_effects;
use crate::patching::dirty_order;
use crate::patching::first_node;
use crate::patching::is_patch_of;
use crate::patching::is_render_of;
use crate::patching::prefix_render_effects;
use crate::patching::leftover;
use crate::patching::list_is_patch_of;
use crate::patching::list_patch_effects;
use crate::patching::lookup;
use crate::patching::lookup_node;
use crate::patching::patch_effects;
use crate::patching::remaining;
use crate::patching::render_effects;
use crate::patching::set_effects;
use crate::patching::suffix_patch_effects;
use crate::reconcile::lemma_remaining;
use crate::reconcile::lemma_without_key;
use crate::reconcile::well_keyed;
use crate::target::EffectModel;
use crate::target::Handle;
use crate::target::Hook;
use vstd::prelude::*;

verus! {

/// Which of the four variants a tree is.
pub open spec fn variant(tree: Tree) -> int {
    match tree {
        Tree::Text(_) => 0,
        Tree::Element(_) => 1,
        Tree::List(_) => 2,
        Tree::Component(_) => 3,
    }
}

/// A node is never morphed into a node of another variant: patching against
/// a previous node of another variant takes that node out whole and then does
/// what patching against nothing does.
pub proof fn law_another_variant_is_replaced(
    out: Tree,
    new: Tree,
    previous: Tree,
    parent: Handle,
    next: Option<Handle>,
    depth: nat,
)
    requires
        variant(new) != variant(previous),
        variant(out) == variant(new),
    ensures
        patch_effects(out, new, Some(previous), parent, next) == previous.remove_effects(parent) + patch_effects(
            out,
            new,
            None,
            parent,
            next,
        ),
        is_patch_of(out, new, Some(previous), depth) == is_patch_of(out, new, None, depth),
{
    assert(previous.remove_effects(parent) + none_effects() =~= previous.remove_effects(parent));
}

/// No element of the tree has event bindings and the tree holds no
/// component.
pub open spec fn is_plain(tree: Tree) -> bool
    decreases tree,
{
    match tree {
        Tree::Text(_) => true,
        Tree::Element(element) => element.events.len() == 0 && match element.child {
            Some(child) => is_plain(*child),
            None => true,
        },
        Tree::List(list) => forall|i: int| 0 <= i < list.nodes.len() ==> is_plain(#[trigger] list.nodes[i]),
        Tree::Component(_) => false,
    }
}

/// The latest pass rendered no component of the tree: it passed through
/// each of them.
pub open spec fn is_passed_through(tree: Tree) -> bool
    decreases tree,
{
    match tree {
        Tree::Text(_) => true,
        Tree::Element(element) => match element.child {
            Some(child) => is_passed_through(*child),
            None => true,
        },
        Tree::List(list) => forall|i: int|
            0 <= i < list.nodes.len() ==> is_passed_through(#[trigger] list.nodes[i]),
        Tree::Component(component) => component.pass == Pass::Propagated && match component.rendered {
            Some(rendered) => is_passed_through(*rendered),
            None => false,
        },
    }
}

/// A pass that renders no component records nothing: it only looks for
/// components that are due.
pub proof fn law_pass_without_rendering_records_nothing(
    out: Tree,
    before: Tree,
    parent: Handle,
    next: Option<Handle>,
    depth: nat,
)
    requires
        is_render_of(out, before, depth),
        is_passed_through(out),
    ensures
        render_effects(out, before, parent, next) == none_effects(),
    decreases out, 1nat,
{
    match (out, before) {
        (Tree::Element(element), Tree::Element(old)) => {
            match (element.child, old.child) {
                (Some(child), Some(old_child)) => {
                    law_pass_without_rendering_records_nothing(*child, *old_child, parent, next, depth);
                },
                _ => {},
            }
        },
        (Tree::List(list), Tree::List(old)) => {
            lemma_children_passed_through(list.nodes, list, old, parent, next, depth);
            assert(render_effects(out, before, parent, next) == prefix_render_effects(
                list.nodes,
                old,
                parent,
                next,
            ));
        },
        (Tree::Component(component), Tree::Component(old)) => {
            assert(render_effects(out, before, parent, next) == component_render_effects(
                component,
                old,
                parent,
                next,
            ));
            assert(crate::patching::component_is_render_of(component, old, depth));
            assert(component_is_pass_of(component, old, true, depth) || component_is_pass_of(
                component,
                old,
                false,
                depth,
            ));
            match (component.rendered, old.rendered) {
                (Some(rendered), Some(old_rendered)) => {
                    assert(component_is_pass_of(component, old, false, depth));
                    law_pass_without_rendering_records_nothing(*rendered, *old_rendered, parent, next, depth);
                    assert(component_render_effects(component, old, parent, next) == render_effects(
                        *rendered,
                        *old_rendered,
                        parent,
                        next,
                    ));
                },
                _ => {},
            }
        },
        _ => {},
    }
}

/// Children that are all passed through record nothing together.
proof fn lemma_children_passed_through(
    done: Seq<Tree>,
    out: ListModel,
    before: ListModel,
    parent: Handle,
    next: Option<Handle>,
    depth: nat,
)
    requires
        done.len() <= out.nodes.len(),
        out.nodes.len() == before.nodes.len(),
        forall|i: int| 0 <= i < done.len() ==> done[i] == out.nodes[i],
        forall|i: int| 0 <= i < out.nodes.len() ==> is_render_of(#[trigger] out.nodes[i], before.nodes[i], depth),
        forall|i: int| 0 <= i < out.nodes.len() ==> is_passed_through(#[trigger] out.nodes[i]),
    ensures
        prefix_render_effects(done, before, parent, next) == none_effects(),
    decreases done, 0nat,
{
    if done.len() > 0 {
        let front = done.drop_last();
        assert forall|i: int| 0 <= i < front.len() implies front[i] == out.nodes[i] by {
            assert(front[i] == done[i]);
        }
        lemma_children_passed_through(front, out, before, parent, next, depth);
        let i = done.len() - 1;
        assert(done.last() == out.nodes[i]);
        law_pass_without_rendering_records_nothing(out.nodes[i], before.nodes[i], parent, next, depth);
        assert(prefix_render_effects(done, before, parent, next) =~= none_effects());
    }
}

/// In every set of attributes of the tree no name occurs twice, and every
/// list of the tree has a key for each child and no key twice.
pub open spec fn is_well_formed(tree: Tree) -> bool
    decreases tree,
{
    match tree {
        Tree::Text(_) => true,
        Tree::Element(element) => {
            &&& element.attrs matches Some(attrs) ==> names(attrs).no_duplicates()
            &&& match element.child {
                Some(child) => is_well_formed(*child),
                None => true,
            }
        },
        Tree::List(list) => well_keyed(list) && forall|i: int|
            0 <= i < list.nodes.len() ==> is_well_formed(#[trigger] list.nodes[i]),
        Tree::Component(component) => match component.rendered {
            Some(rendered) => is_well_formed(*rendered),
            None => true,
        },
    }
}

/// Two trees show the same: the same texts, the same tags, classes and
/// attributes, the same children under the same keys in the same order.
/// Where they are attached does not count.
pub open spec fn shows_the_same(a: Tree, b: Tree) -> bool
    decreases a,
{
    match (a, b) {
        (Tree::Text(x), Tree::Text(y)) => x.content == y.content,
        (Tree::Element(x), Tree::Element(y)) => {
            &&& x.tag == y.tag
            &&& x.class == y.class
            &&& x.attrs == y.attrs
            &&& x.self_closing == y.self_closing
            &&& match (x.child, y.child) {
                (Some(mine), Some(theirs)) => shows_the_same(*mine, *theirs),
                (None, None) => true,
                _ => false,
            }
        },
        (Tree::List(x), Tree::List(y)) => {
            &&& x.keys == y.keys
            &&& x.nodes.len() == y.nodes.len()
            &&& forall|i: int| 0 <= i < x.nodes.len() ==> shows_the_same(#[trigger] x.nodes[i], y.nodes[i])
        },
        _ => false,
    }
}

/// Taking every name of a set of attributes out of it leaves nothing.
pub proof fn lemma_leftover_of_all(entries: Seq<(Seq<char>, Seq<char>)>, n: int)
    requires
        names(entries).no_duplicates(),
        0 <= n <= entries.len(),
    ensures
        leftover(entries, names(entries), n).len() == entries.len() - n,
    decreases n,
{
    if n > 0 {
        lemma_leftover_of_all(entries, n - 1);
        lemma_leftover(entries, names(entries), n - 1);
        let before = leftover(entries, names(entries), n - 1);
        let key = names(entries)[n - 1];
        assert(forall|i: int| 0 <= i < n - 1 ==> names(entries)[i] != key);
        lemma_find_unique(names(entries), key, n - 1);
        assert(lookup(before, key) == lookup(entries, key));
        assert(find(names(before), key) is Some);
    }
}

/// Attributes that are written over themselves are not touched.
pub proof fn lemma_same_attrs_record_nothing(entries: Seq<(Seq<char>, Seq<char>)>, node: Handle, n: int)
    requires
        names(entries).no_duplicates(),
        0 <= n <= entries.len(),
    ensures
        set_effects(entries, entries, node, n) == none_effects(),
    decreases n,
{
    if n > 0 {
        lemma_same_attrs_record_nothing(entries, node, n - 1);
        assert(names(entries)[n - 1] == entries[n - 1].0);
        lemma_find_unique(names(entries), entries[n - 1].0, n - 1);
    }
}

/// Taking every key of a list out of it leaves nothing.
pub proof fn lemma_remaining_of_all(list: ListModel, from: int)
    requires
        well_keyed(list),
        0 <= from <= list.keys.len(),
    ensures
        remaining(list, list.keys, from).nodes.len() == from,
        remaining(list, list.keys, from).keys.len() == from,
    decreases list.keys.len() - from,
{
    if from < list.keys.len() {
        lemma_remaining_of_all(list, from + 1);
        lemma_remaining(list, list.keys, from + 1);
        let before = remaining(list, list.keys, from + 1);
        let key = list.keys[from];
        assert(forall|i: int| from + 1 <= i < list.keys.len() ==> list.keys[i] != key);
        lemma_find_unique(list.keys, key, from);
        assert(lookup_node(before, key) == lookup_node(list, key));
        assert(find(before.keys, key) is Some);
    }
}

/// Keys that stand where they stood are in no dirty order.
pub proof fn lemma_same_keys_are_in_order(keys: Seq<Seq<char>>)
    requires
        keys.no_duplicates(),
    ensures
        !dirty_order(keys, keys),
{
    assert forall|i: int, j: int|
        0 <= i < j < keys.len() && (#[trigger] find(keys, keys[i])) is Some && (#[trigger] find(
            keys,
            keys[j],
        )) is Some implies find(keys, keys[i])->0 <= find(keys, keys[j])->0 by {
        lemma_find_unique(keys, keys[i], i);
        lemma_find_unique(keys, keys[j], j);
    }
}

/// Patching a plain tree against a previous tree that shows the same
/// records nothing and hands the previous tree back: every node is carried
/// over and the target is not touched.
pub proof fn law_identical_patch_records_nothing(
    out: Tree,
    new: Tree,
    previous: Tree,
    parent: Handle,
    next: Option<Handle>,
    depth: nat,
)
    requires
        is_plain(new),
        is_plain(previous),
        is_well_formed(previous),
        previous.is_attached(),
        shows_the_same(new, previous),
        is_patch_of(out, new, Some(previous), depth),
    ensures
        patch_effects(out, new, Some(previous), parent, next) == none_effects(),
        out == previous,
    decreases out,
{
    match (out, new, previous) {
        (Tree::Text(text), Tree::Text(fresh), Tree::Text(old)) => {},
        (Tree::Element(element), Tree::Element(fresh), Tree::Element(old)) => {
            let node = element.handle->0;
            assert(crate::patching::element_is_patch_of(element, fresh, Some(old), depth));
            assert(child_is_patch_of(element.child, fresh.child, old.child, depth));
            assert(element.events =~= old.events);
            match (element.child, fresh.child, old.child) {
                (Some(child), Some(fresh_child), Some(old_child)) => {
                    assert(is_patch_of(*child, *fresh_child, Some(*old_child), depth));
                    law_identical_patch_records_nothing(*child, *fresh_child, *old_child, node, None, depth);
                    assert(*child == *old_child);
                    assert(element.child == old.child);
                    assert(child_patch_effects(element.child, fresh.child, old.child, node) == patch_effects(
                        *child,
                        *fresh_child,
                        Some(*old_child),
                        node,
                        None,
                    ));
                },
                (None, None, None) => {},
                _ => {
                    assert(false);
                },
            }
            assert(child_patch_effects(element.child, fresh.child, old.child, node) == none_effects());
            assert(element == old);
            match old.attrs {
                Some(attrs) => {
                    lemma_same_attrs_record_nothing(attrs, node, attrs.len() as int);
                    lemma_leftover_of_all(attrs, attrs.len() as int);
                    assert(attrs_effects(old.attrs, element.attrs, node) =~= none_effects());
                },
                None => {},
            }
            assert(patch_effects(out, new, Some(previous), parent, next) =~= none_effects());
        },
        (Tree::List(list), Tree::List(fresh), Tree::List(old)) => {
            let n = list.nodes.len() as int;
            assert forall|i: int| 0 <= i < n implies list.nodes[i] == old.nodes[i] && patch_effects(
                #[trigger] list.nodes[i],
                fresh.nodes[i],
                Some(old.nodes[i]),
                parent,
                first_node(list.nodes.skip(i + 1), next),
            ) == none_effects() by {
                lemma_find_unique(old.keys, list.keys[i], i);
                assert(lookup_node(old, list.keys[i]) == Some(old.nodes[i]));
                law_identical_patch_records_nothing(
                    list.nodes[i],
                    fresh.nodes[i],
                    old.nodes[i],
                    parent,
                    first_node(list.nodes.skip(i + 1), next),
                    depth,
                );
            }
            assert(list.nodes =~= old.nodes);
            lemma_suffix_records_nothing(list, fresh, old, parent, next, 0);
            assert(list.nodes.skip(0) =~= list.nodes);
            lemma_same_keys_are_in_order(old.keys);
            lemma_remaining_of_all(old, 0);
            assert(remaining(old, list.keys, 0).nodes =~= Seq::<Tree>::empty());
            assert(list_patch_effects(list, fresh, Some(old), parent, next) =~= none_effects());
        },
        _ => {},
    }
}

/// No element of the tree has event bindings, as far as the tree is
/// patched: what components have rendered is not looked at.
pub open spec fn has_no_bindings(tree: Tree) -> bool
    decreases tree,
{
    match tree {
        Tree::Text(_) => true,
        Tree::Element(element) => element.events.len() == 0 && match element.child {
            Some(child) => has_no_bindings(*child),
            None => true,
        },
        Tree::List(list) => forall|i: int|
            0 <= i < list.nodes.len() ==> has_no_bindings(#[trigger] list.nodes[i]),
        Tree::Component(_) => true,
    }
}

/// Two trees show the same as far as they are described: the same texts,
/// elements and keyed lists, and components of the same types in the same
/// places.
pub open spec fn describes_the_same(a: Tree, b: Tree) -> bool
    decreases a,
{
    match (a, b) {
        (Tree::Text(x), Tree::Text(y)) => x.content == y.content,
        (Tree::Element(x), Tree::Element(y)) => {
            &&& x.tag == y.tag
            &&& x.class == y.class
            &&& x.attrs == y.attrs
            &&& x.self_closing == y.self_closing
            &&& match (x.child, y.child) {
                (Some(mine), Some(theirs)) => describes_the_same(*mine, *theirs),
                (None, None) => true,
                _ => false,
            }
        },
        (Tree::List(x), Tree::List(y)) => {
            &&& x.keys == y.keys
            &&& x.nodes.len() == y.nodes.len()
            &&& forall|i: int| 0 <= i < x.nodes.len() ==> describes_the_same(#[trigger] x.nodes[i], y.nodes[i])
        },
        (Tree::Component(x), Tree::Component(y)) => x.kind == y.kind,
        _ => false,
    }
}

/// Every node of `out` is the node that stood for it in `previous`: texts
/// and elements have the nodes, components the instances that they had.
pub open spec fn carries_over(out: Tree, previous: Tree) -> bool
    decreases out,
{
    match (out, previous) {
        (Tree::Text(text), Tree::Text(old)) => text.handle == old.handle,
        (Tree::Element(element), Tree::Element(old)) => element.handle == old.handle && match (
            element.child,
            old.child,
        ) {
            (Some(child), Some(old_child)) => carries_over(*child, *old_child),
            (None, None) => true,
            _ => false,
        },
        (Tree::List(list), Tree::List(old)) => {
            &&& list.nodes.len() == old.nodes.len()
            &&& forall|i: int| 0 <= i < list.nodes.len() ==> carries_over(#[trigger] list.nodes[i], old.nodes[i])
        },
        (Tree::Component(component), Tree::Component(old)) => component.instance == old.instance && match (
            component.rendered,
            old.rendered,
        ) {
            (Some(rendered), Some(old_rendered)) => carries_over(*rendered, *old_rendered),
            (None, None) => true,
            _ => false,
        },
        _ => false,
    }
}

/// A pass that renders no component carries every node over.
pub proof fn law_pass_without_rendering_carries_over(out: Tree, before: Tree, depth: nat)
    requires
        is_render_of(out, before, depth),
        is_passed_through(out),
    ensures
        carries_over(out, before),
    decreases out,
{
    match (out, before) {
        (Tree::Element(element), Tree::Element(old)) => {
            match (element.child, old.child) {
                (Some(child), Some(old_child)) => {
                    law_pass_without_rendering_carries_over(*child, *old_child, depth);
                },
                _ => {},
            }
        },
        (Tree::List(list), Tree::List(old)) => {
            assert forall|i: int| 0 <= i < list.nodes.len() implies carries_over(
                #[trigger] list.nodes[i],
                old.nodes[i],
            ) by {
                assert(is_render_of(list.nodes[i], old.nodes[i], depth));
                law_pass_without_rendering_carries_over(list.nodes[i], old.nodes[i], depth);
            }
        },
        (Tree::Component(component), Tree::Component(old)) => {
            assert(crate::patching::component_is_render_of(component, old, depth));
            assert(component_is_pass_of(component, old, true, depth) || component_is_pass_of(
                component,
                old,
                false,
                depth,
            ));
            match (component.rendered, old.rendered) {
                (Some(rendered), Some(old_rendered)) => {
                    assert(component_is_pass_of(component, old, false, depth));
                    law_pass_without_rendering_carries_over(*rendered, *old_rendered, depth);
                },
                _ => {},
            }
        },
        _ => {},
    }
}

/// Patching a tree against a previous tree that describes the same records
/// nothing as long as no component in it is rendered: every node is carried
/// over, every component lives on, and the target is not touched. Elements
/// with event bindings are left out: their bindings are detached and attached
/// anew in every patch.
pub proof fn law_identical_patch_with_components_records_nothing(
    out: Tree,
    new: Tree,
    previous: Tree,
    parent: Handle,
    next: Option<Handle>,
    depth: nat,
)
    requires
        has_no_bindings(new),
        has_no_bindings(previous),
        is_well_formed(previous),
        describes_the_same(new, previous),
        is_patch_of(out, new, Some(previous), depth),
        is_passed_through(out),
    ensures
        patch_effects(out, new, Some(previous), parent, next) == none_effects(),
        carries_over(out, previous),
    decreases out,
{
    match (out, new, previous) {
        (Tree::Text(text), Tree::Text(fresh), Tree::Text(old)) => {},
        (Tree::Element(element), Tree::Element(fresh), Tree::Element(old)) => {
            let node = element.handle->0;
            assert(crate::patching::element_is_patch_of(element, fresh, Some(old), depth));
            assert(child_is_patch_of(element.child, fresh.child, old.child, depth));
            assert(element.events =~= old.events);
            match (element.child, fresh.child, old.child) {
                (Some(child), Some(fresh_child), Some(old_child)) => {
                    assert(is_patch_of(*child, *fresh_child, Some(*old_child), depth));
                    law_identical_patch_with_components_records_nothing(
                        *child,
                        *fresh_child,
                        *old_child,
                        node,
                        None,
                        depth,
                    );
                    assert(child_patch_effects(element.child, fresh.child, old.child, node) == patch_effects(
                        *child,
                        *fresh_child,
                        Some(*old_child),
                        node,
                        None,
                    ));
                },
                (None, None, None) => {},
                _ => {
                    assert(false);
                },
            }
            assert(child_patch_effects(element.child, fresh.child, old.child, node) == none_effects());
            match old.attrs {
                Some(attrs) => {
                    lemma_same_attrs_record_nothing(attrs, node, attrs.len() as int);
                    lemma_leftover_of_all(attrs, attrs.len() as int);
                    assert(attrs_effects(old.attrs, element.attrs, node) =~= none_effects());
                },
                None => {},
            }
            assert(patch_effects(out, new, Some(previous), parent, next) =~= none_effects());
        },
        (Tree::List(list), Tree::List(fresh), Tree::List(old)) => {
            let n = list.nodes.len() as int;
            assert forall|i: int| 0 <= i < n implies patch_effects(
                #[trigger] list.nodes[i],
                fresh.nodes[i],
                lookup_node(old, list.keys[i]),
                parent,
                first_node(list.nodes.skip(i + 1), next),
            ) == none_effects() by {
                lemma_find_unique(old.keys, list.keys[i], i);
                assert(lookup_node(old, list.keys[i]) == Some(old.nodes[i]));
                law_identical_patch_with_components_records_nothing(
                    list.nodes[i],
                    fresh.nodes[i],
                    old.nodes[i],
                    parent,
                    first_node(list.nodes.skip(i + 1), next),
                    depth,
                );
            }
            lemma_suffix_records_nothing(list, fresh, old, parent, next, 0);
            assert(list.nodes.skip(0) =~= list.nodes);
            lemma_same_keys_are_in_order(old.keys);
            lemma_remaining_of_all(old, 0);
            assert(remaining(old, list.keys, 0).nodes =~= Seq::<Tree>::empty());
            assert(list_patch_effects(list, fresh, Some(old), parent, next) =~= none_effects());
            assert forall|i: int| 0 <= i < n implies carries_over(#[trigger] list.nodes[i], old.nodes[i]) by {
                lemma_find_unique(old.keys, list.keys[i], i);
                law_identical_patch_with_components_records_nothing(
                    list.nodes[i],
                    fresh.nodes[i],
                    old.nodes[i],
                    parent,
                    first_node(list.nodes.skip(i + 1), next),
                    depth,
                );
            }
        },
        (Tree::Component(component), Tree::Component(fresh), Tree::Component(old)) => {
            assert(component_is_patch_of(component, fresh, Some(old), depth));
            assert(crate::patching::component_is_render_of(component, old, depth));
            law_pass_without_rendering_records_nothing(out, previous, parent, next, depth);
            law_pass_without_rendering_carries_over(out, previous, depth);
            assert(component_patch_effects(component, fresh, Some(old), parent, next)
                == component_render_effects(component, old, parent, next));
        },
        _ => {},
    }
}

/// Where each of the last children of a list records nothing, they record
/// nothing together.
proof fn lemma_suffix_records_nothing(
    out: ListModel,
    new: ListModel,
    old: ListModel,
    parent: Handle,
    next: Option<Handle>,
    from: int,
)
    requires
        0 <= from <= out.nodes.len(),
        out.nodes.len() == new.nodes.len(),
        out.keys == new.keys,
        out.keys.len() == out.nodes.len(),
        forall|i: int|
            0 <= i < out.nodes.len() ==> patch_effects(
                #[trigger] out.nodes[i],
                new.nodes[i],
                lookup_node(old, out.keys[i]),
                parent,
                first_node(out.nodes.skip(i + 1), next),
            ) == none_effects(),
    ensures
        suffix_patch_effects(out.nodes.skip(from), new, old, parent, next) == none_effects(),
    decreases out.nodes.len() - from,
{
    let done = out.nodes.skip(from);
    if from < out.nodes.len() {
        lemma_suffix_records_nothing(out, new, old, parent, next, from + 1);
        assert(done.drop_first() =~= out.nodes.skip(from + 1));
        assert(done.first() == out.nodes[from]);
        assert(new.nodes.len() - done.len() == from);
        assert(suffix_patch_effects(done, new, old, parent, next) =~= none_effects());
    }
}

/// The old children keep their order among the new: of any two that are
/// still there, the one that stood first still stands first.
pub open spec fn keeps_order(old_keys: Seq<Seq<char>>, new_keys: Seq<Seq<char>>) -> bool {
    forall|i: int, j: int|
        0 <= i < j < new_keys.len() && (#[trigger] find(old_keys, new_keys[i])) is Some && (#[trigger] find(
            old_keys,
            new_keys[j],
        )) is Some ==> find(old_keys, new_keys[i])->0 < find(old_keys, new_keys[j])->0
}

/// A list whose old children kept their order is patched without a move:
/// its children are patched, and the old children whose keys are gone are
/// taken out. This is so in particular where children were only added to
/// or taken from the list.
pub proof fn law_kept_order_moves_nothing(
    out: ListModel,
    new: ListModel,
    old: ListModel,
    parent: Handle,
    next: Option<Handle>,
)
    requires
        keeps_order(old.keys, out.keys),
    ensures
        !dirty_order(old.keys, out.keys),
        list_patch_effects(out, new, Some(old), parent, next) == suffix_patch_effects(
            out.nodes,
            new,
            old,
            parent,
            next,
        ) + list_remove_effects(remaining(old, out.keys, 0).nodes, parent),
{
    assert(suffix_patch_effects(out.nodes, new, old, parent, next) + none_effects() =~= suffix_patch_effects(
        out.nodes,
        new,
        old,
        parent,
        next,
    ));
}

/// Children appended to a list leave the old children in their order.
pub proof fn law_appending_keeps_order(old_keys: Seq<Seq<char>>, new_keys: Seq<Seq<char>>)
    requires
        old_keys.no_duplicates(),
        new_keys.no_duplicates(),
        old_keys.len() <= new_keys.len(),
        new_keys.subrange(0, old_keys.len() as int) == old_keys,
    ensures
        keeps_order(old_keys, new_keys),
{
    assert forall|i: int, j: int|
        0 <= i < j < new_keys.len() && (#[trigger] find(old_keys, new_keys[i])) is Some && (#[trigger] find(
            old_keys,
            new_keys[j],
        )) is Some implies find(old_keys, new_keys[i])->0 < find(old_keys, new_keys[j])->0 by {
        let a = find(old_keys, new_keys[i])->0;
        let b = find(old_keys, new_keys[j])->0;
        assert(new_keys.subrange(0, old_keys.len() as int)[a] == old_keys[a]);
        assert(new_keys.subrange(0, old_keys.len() as int)[b] == old_keys[b]);
        assert(new_keys[a] == new_keys[i]);
        assert(new_keys[b] == new_keys[j]);
    }
}

/// The old children that a patch takes out are those whose keys are gone,
/// each once: what remains of the old list when the new keys were taken from
/// it holds no new key, and holds every other key of the old list with its
/// node.
pub proof fn law_stale_children_are_removed_once(old: ListModel, new_keys: Seq<Seq<char>>)
    requires
        well_keyed(old),
    ensures
        well_keyed(remaining(old, new_keys, 0)),
        forall|key: Seq<char>|
            lookup_node(remaining(old, new_keys, 0), key) == if new_keys.contains(key) {
                None
            } else {
                lookup_node(old, key)
            },
{
    lemma_remaining(old, new_keys, 0);
    assert forall|key: Seq<char>| lookup_node(remaining(old, new_keys, 0), key) == if new_keys.contains(key) {
        None
    } else {
        lookup_node(old, key)
    } by {
        if new_keys.contains(key) {
            let i = choose|i: int| 0 <= i < new_keys.len() && new_keys[i] == key;
            lemma_taken_key_is_gone(old, new_keys, 0, i);
        }
    }
}

/// Where no key of the old list is gone, a patch takes none of the old
/// children out.
pub proof fn law_no_key_gone_removes_nothing(old: ListModel, new_keys: Seq<Seq<char>>, parent: Handle)
    requires
        well_keyed(old),
        forall|i: int| 0 <= i < old.keys.len() ==> new_keys.contains(#[trigger] old.keys[i]),
    ensures
        list_remove_effects(remaining(old, new_keys, 0).nodes, parent) == none_effects(),
{
    law_stale_children_are_removed_once(old, new_keys);
    let rest = remaining(old, new_keys, 0);
    if rest.keys.len() > 0 {
        let key = rest.keys[0];
        lemma_find_unique(rest.keys, key, 0);
        assert(lookup_node(rest, key) is Some);
        assert(!new_keys.contains(key));
        assert(lookup_node(old, key) is Some);
        let i = find(old.keys, key)->0;
        assert(old.keys[i] == key);
    }
    assert(rest.nodes =~= Seq::<Tree>::empty());
}

/// A child whose key the old list held is patched against the old child of
/// that key, wherever that stood: what can be carried over from it is.
pub proof fn law_kept_key_is_patched_against_its_child(
    out: ListModel,
    new: ListModel,
    old: ListModel,
    depth: nat,
    i: int,
    j: int,
)
    requires
        list_is_patch_of(out, new, Some(old), depth),
        well_keyed(old),
        0 <= i < out.nodes.len(),
        0 <= j < old.keys.len(),
        new.keys[i] == old.keys[j],
    ensures
        is_patch_of(out.nodes[i], new.nodes[i], Some(old.nodes[j]), depth),
{
    lemma_find_unique(old.keys, new.keys[i], j);
}

/// A child whose key is new is built as if nothing had been there.
pub proof fn law_new_key_is_built(out: ListModel, new: ListModel, old: ListModel, depth: nat, i: int)
    requires
        list_is_patch_of(out, new, Some(old), depth),
        0 <= i < out.nodes.len(),
        !old.keys.contains(new.keys[i]),
    ensures
        is_patch_of(out.nodes[i], new.nodes[i], None, depth),
{
    lemma_find_absent(old.keys, new.keys[i]);
}

/// A key that was taken is not among what remains.
proof fn lemma_taken_key_is_gone(old: ListModel, taken: Seq<Seq<char>>, from: int, i: int)
    requires
        well_keyed(old),
        0 <= from <= i < taken.len(),
    ensures
        lookup_node(remaining(old, taken, from), taken[i]) is None,
    decreases i - from,
{
    lemma_remaining(old, taken, from + 1);
    lemma_without_key(remaining(old, taken, from + 1), taken[from]);
    if from < i {
        lemma_taken_key_is_gone(old, taken, from + 1, i);
        if taken[from] != taken[i] {
            assert(lookup_node(remaining(old, taken, from), taken[i]) == lookup_node(
                remaining(old, taken, from + 1),
                taken[i],
            ));
        }
    }
}

/// A component that is patched against one of its own type lives on in it:
/// the instance is the one that was there, it is neither created nor mounted
/// again, and what the pass records is what rendering the old component
/// records.
pub proof fn law_component_of_same_type_is_reused(
    out: ComponentModel,
    new: ComponentModel,
    old: ComponentModel,
    parent: Handle,
    next: Option<Handle>,
    depth: nat,
)
    requires
        old.kind == new.kind,
        old.rendered is Some,
        component_is_patch_of(out, new, Some(old), depth),
    ensures
        out.instance == old.instance,
        out.pass != Pass::Mounted,
        component_patch_effects(out, new, Some(old), parent, next) == component_render_effects(
            out,
            old,
            parent,
            next,
        ),
{
}

/// A component that is patched against one of another type replaces it:
/// what the old one rendered is taken out and its instance destroyed, and
/// only then is the new one created, rendered against nothing and mounted.
pub proof fn law_component_of_other_type_is_replaced(
    out: ComponentModel,
    new: ComponentModel,
    old: ComponentModel,
    parent: Handle,
    next: Option<Handle>,
    depth: nat,
)
    requires
        old.kind != new.kind,
        old.instance is Some,
        new.instance is None,
        new.rendered is None,
        new.served is None,
        depth > 0,
        component_is_patch_of(out, new, Some(old), depth),
    ensures
        out.pass == Pass::Mounted,
        out.instance is Some,
        component_patch_effects(out, new, Some(old), parent, next) == (match old.rendered {
            Some(rendered) => rendered.remove_effects(parent),
            None => none_effects(),
        }) + seq![EffectModel::Lifecycle { component: old.instance->0, hook: Hook::Destroyed }] + seq![
            EffectModel::Lifecycle { component: out.instance->0, hook: Hook::Created },
        ] + patch_effects(*out.rendered->0, *out.source->0, None, parent, next) + seq![
            EffectModel::Lifecycle { component: out.instance->0, hook: Hook::Mounted },
        ],
{
    let removal = (match old.rendered {
        Some(rendered) => rendered.remove_effects(parent),
        None => none_effects(),
    }) + seq![EffectModel::Lifecycle { component: old.instance->0, hook: Hook::Destroyed }];
    assert(Tree::Component(old).remove_effects(parent) == removal);
    let rendering = seq![EffectModel::Lifecycle { component: out.instance->0, hook: Hook::Created }]
        + patch_effects(*out.rendered->0, *out.source->0, None, parent, next) + seq![
        EffectModel::Lifecycle { component: out.instance->0, hook: Hook::Mounted },
    ];
    assert(component_render_effects(out, new, parent, next) == rendering);
    assert(removal + rendering =~= removal + seq![
        EffectModel::Lifecycle { component: out.instance->0, hook: Hook::Created },
    ] + patch_effects(*out.rendered->0, *out.source->0, None, parent, next) + seq![
        EffectModel::Lifecycle { component: out.instance->0, hook: Hook::Mounted },
    ]);
}

/// A component whose state has not changed is passed through: it is not
/// rendered and fires no hook, and the pass records exactly what it records
/// below the component, where a component whose state has changed is
/// rendered again.
pub proof fn law_clean_component_is_passed_through(
    out: ComponentModel,
    before: ComponentModel,
    parent: Handle,
    next: Option<Handle>,
    depth: nat,
)
    requires
        before.rendered is Some,
        component_is_pass_of(out, before, false, depth),
    ensures
        out.pass == Pass::Propagated,
        out.instance == before.instance,
        out.source == before.source,
        out.rendered is Some,
        component_render_effects(out, before, parent, next) == render_effects(
            *out.rendered->0,
            *before.rendered->0,
            parent,
            next,
        ),
{
}

/// A component whose state has changed is rendered again, against what it
/// rendered before, and fires `updated`, last of what its pass records.
pub proof fn law_dirty_component_is_updated(
    out: ComponentModel,
    before: ComponentModel,
    parent: Handle,
    next: Option<Handle>,
    depth: nat,
)
    requires
        before.rendered is Some,
        depth > 0,
        component_is_pass_of(out, before, true, depth),
    ensures
        out.pass == Pass::Updated,
        out.instance == before.instance,
        component_render_effects(out, before, parent, next) == patch_effects(
            *out.rendered->0,
            *out.source->0,
            Some(*before.rendered->0),
            parent,
            next,
        ) + seq![EffectModel::Lifecycle { component: out.instance->0, hook: Hook::Updated }],
{
}


/// The attributes that a node of the document has: values under names.
pub type Written = Map<Seq<char>, Seq<char>>;

/// The attributes of `node` after one effect.
pub open spec fn write(written: Written, effect: EffectModel, node: Handle) -> Written {
    match effect {
        EffectModel::SetAttribute { node: target, key, value } => if target == node {
            written.insert(key, value)
        } else {
            written
        },
        EffectModel::RemoveAttribute { node: target, key } => if target == node {
            written.remove(key)
        } else {
            written
        },
        _ => written,
    }
}

/// The attributes of `node` after the effects, first to last.
pub open spec fn write_all(written: Written, effects: Seq<EffectModel>, node: Handle) -> Written
    decreases effects.len(),
{
    if effects.len() == 0 {
        written
    } else {
        write(write_all(written, effects.drop_last(), node), effects.last(), node)
    }
}

/// A set of attributes as a document holds it: the value under each name.
pub open spec fn as_written(entries: Seq<(Seq<char>, Seq<char>)>) -> Written {
    Map::new(|key: Seq<char>| names(entries).contains(key), |key: Seq<char>| lookup(entries, key)->0)
}

/// Writing one record after another is writing both.
pub proof fn lemma_write_concat(written: Written, first: Seq<EffectModel>, second: Seq<EffectModel>, node: Handle)
    ensures
        write_all(written, first + second, node) == write_all(write_all(written, first, node), second, node),
    decreases second.len(),
{
    if second.len() == 0 {
        assert(first + second =~= first);
    } else {
        lemma_write_concat(written, first, second.drop_last(), node);
        assert((first + second).drop_last() =~= first + second.drop_last());
        assert((first + second).last() == second.last());
    }
}

/// One of the attributes `entries[..n]` has the name.
pub open spec fn named_among(entries: Seq<(Seq<char>, Seq<char>)>, n: int, key: Seq<char>) -> bool {
    exists|i: int| 0 <= i < n && i < entries.len() && (#[trigger] entries[i]).0 == key
}

/// The step from `n - 1` to `n` attributes.
proof fn lemma_named_among_step(entries: Seq<(Seq<char>, Seq<char>)>, n: int, key: Seq<char>)
    requires
        0 < n <= entries.len(),
    ensures
        named_among(entries, n, key) <==> named_among(entries, n - 1, key) || entries[n - 1].0 == key,
{
    if named_among(entries, n, key) {
        let i = choose|i: int| 0 <= i < n && i < entries.len() && (#[trigger] entries[i]).0 == key;
        if i < n - 1 {
            assert(named_among(entries, n - 1, key));
        }
    }
    if named_among(entries, n - 1, key) {
        let i = choose|i: int| 0 <= i < n - 1 && i < entries.len() && (#[trigger] entries[i]).0 == key;
        assert(entries[i].0 == key);
    }
    if entries[n - 1].0 == key {
        assert(named_among(entries, n, key));
    }
}

/// All of the attributes are those whose names are there.
proof fn lemma_named_among_all(entries: Seq<(Seq<char>, Seq<char>)>, key: Seq<char>)
    ensures
        named_among(entries, entries.len() as int, key) <==> names(entries).contains(key),
{
    if named_among(entries, entries.len() as int, key) {
        let i = choose|i: int| 0 <= i < entries.len() && (#[trigger] entries[i]).0 == key;
        assert(names(entries)[i] == key);
    }
    if names(entries).contains(key) {
        let i = choose|i: int| 0 <= i < names(entries).len() && names(entries)[i] == key;
        assert(entries[i].0 == key);
    }
}

/// After the new attributes `new[..n]` were written over the old ones, the
/// node has them, and has every old attribute whose name is not among them.
proof fn lemma_set_writes(
    new: Seq<(Seq<char>, Seq<char>)>,
    old: Seq<(Seq<char>, Seq<char>)>,
    node: Handle,
    n: int,
    key: Seq<char>,
)
    requires
        names(new).no_duplicates(),
        names(old).no_duplicates(),
        0 <= n <= new.len(),
    ensures
        ({
            let after = write_all(as_written(old), set_effects(new, old, node, n), node);
            let among = named_among(new, n, key);
            &&& after.dom().contains(key) <==> among || names(old).contains(key)
            &&& among ==> after[key] == lookup(new, key)->0
            &&& !among && names(old).contains(key) ==> after[key] == lookup(old, key)->0
        }),
    decreases n,
{
    if n > 0 {
        lemma_set_writes(new, old, node, n - 1, key);
        lemma_named_among_step(new, n, key);
        let entry = new[n - 1];
        assert(names(new)[n - 1] == entry.0);
        lemma_find_unique(names(new), entry.0, n - 1);
        if lookup(old, entry.0) == Some(entry.1) {
            assert(names(old).contains(entry.0));
            if named_among(new, n - 1, entry.0) {
                let i = choose|i: int| 0 <= i < n - 1 && i < new.len() && (#[trigger] new[i]).0 == entry.0;
                assert(names(new)[i] == names(new)[n - 1]);
            }
        } else {
            let effects = set_effects(new, old, node, n);
            assert(effects.drop_last() =~= set_effects(new, old, node, n - 1));
        }
    }
}

/// Unsetting the attributes `stale[..n]` takes their names away and leaves
/// every other name as it was.
proof fn lemma_unset_writes(
    written: Written,
    stale: Seq<(Seq<char>, Seq<char>)>,
    node: Handle,
    n: int,
    key: Seq<char>,
)
    requires
        0 <= n <= stale.len(),
    ensures
        ({
            let after = write_all(written, unset_effects(stale, node, n), node);
            &&& after.dom().contains(key) <==> written.dom().contains(key) && !named_among(stale, n, key)
            &&& after.dom().contains(key) ==> after[key] == written[key]
        }),
    decreases n,
{
    if n > 0 {
        lemma_unset_writes(written, stale, node, n - 1, key);
        lemma_named_among_step(stale, n, key);
        assert(unset_effects(stale, node, n).drop_last() =~= unset_effects(stale, node, n - 1));
    }
}

/// The attributes of an element are brought up to date: a node that has the
/// old attributes has, after the patch of its attributes, exactly the new
/// ones.
pub proof fn law_attributes_are_brought_up_to_date(
    old: Seq<(Seq<char>, Seq<char>)>,
    new: Seq<(Seq<char>, Seq<char>)>,
    node: Handle,
)
    requires
        names(old).no_duplicates(),
        names(new).no_duplicates(),
    ensures
        write_all(as_written(old), attrs_effects(Some(old), Some(new), node), node) == as_written(new),
        write_all(as_written(old), attrs_effects(Some(old), None, node), node) == as_written(Seq::empty()),
        write_all(as_written(Seq::empty()), attrs_effects(None, Some(new), node), node) == as_written(new),
{
    let n = new.len() as int;
    let stale = leftover(old, names(new), n);
    let set = set_effects(new, old, node, n);
    let unset = unset_effects(stale, node, stale.len() as int);
    let middle = write_all(as_written(old), set, node);
    lemma_write_concat(as_written(old), set, unset, node);
    lemma_leftover(old, names(new), n);
    let last = write_all(middle, unset, node);
    assert forall|key: Seq<char>| #[trigger] last.dom().contains(key) == as_written(new).dom().contains(key) && (
    last.dom().contains(key) ==> last[key] == as_written(new)[key]) by {
        lemma_set_writes(new, old, node, n, key);
        lemma_unset_writes(middle, stale, node, stale.len() as int, key);
        lemma_named_among_all(new, key);
        lemma_named_among_all(stale, key);
        if names(new).contains(key) {
            let i = choose|i: int| 0 <= i < names(new).len() && names(new)[i] == key;
            lemma_taken_name_is_gone(old, names(new), n, i);
            if names(stale).contains(key) {
                lemma_find_present(names(stale), key);
            }
        } else {
            assert(forall|i: int| 0 <= i < n ==> names(new)[i] != key);
            assert(lookup(stale, key) == lookup(old, key));
            if names(old).contains(key) {
                lemma_find_present(names(old), key);
                lemma_find_present_back(names(stale), key);
            }
        }
    }
    assert(last =~= as_written(new));

    let cleared = write_all(as_written(old), unset_effects(old, node, old.len() as int), node);
    assert forall|key: Seq<char>| !(#[trigger] cleared.dom().contains(key)) by {
        lemma_unset_writes(as_written(old), old, node, old.len() as int, key);
        lemma_named_among_all(old, key);
    }
    assert(cleared =~= as_written(Seq::empty()));

    let filled = write_all(as_written(Seq::empty()), set_effects(new, Seq::empty(), node, n), node);
    assert forall|key: Seq<char>| #[trigger] filled.dom().contains(key) == as_written(new).dom().contains(key) && (
    filled.dom().contains(key) ==> filled[key] == as_written(new)[key]) by {
        lemma_set_writes(new, Seq::empty(), node, n, key);
        lemma_named_among_all(new, key);
    }
    assert(filled =~= as_written(new));
}

/// A name that is found is there.
proof fn lemma_find_present(keys: Seq<Seq<char>>, key: Seq<char>)
    requires
        keys.contains(key),
    ensures
        find(keys, key) is Some,
        0 <= find(keys, key)->0 < keys.len(),
        keys[find(keys, key)->0] == key,
{
}

/// A name under which something is found is there.
proof fn lemma_find_present_back(keys: Seq<Seq<char>>, key: Seq<char>)
    requires
        find(keys, key) is Some,
    ensures
        0 <= find(keys, key)->0 < keys.len(),
        keys[find(keys, key)->0] == key,
{
}

/// A name that was taken is not among what is left.
proof fn lemma_taken_name_is_gone(old: Seq<(Seq<char>, Seq<char>)>, taken: Seq<Seq<char>>, n: int, i: int)
    requires
        names(old).no_duplicates(),
        0 <= i < n <= taken.len(),
    ensures
        lookup(leftover(old, taken, n), taken[i]) is None,
    decreases n,
{
    lemma_leftover(old, taken, n - 1);
    crate::attributes::lemma_without(leftover(old, taken, n - 1), taken[n - 1]);
    if i < n - 1 {
        lemma_taken_name_is_gone(old, taken, n - 1, i);
    }
}

} // verus!
