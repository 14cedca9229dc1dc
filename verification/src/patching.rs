//! What a pass does, stated over trees.
//!
//! Three trees meet in a patch: `new`, the description to show; `previous`,
//! what the target shows now; and `out`, the tree that the patch hands back,
//! which is `new` attached. [`is_patch_of`] says which `out` a patch may hand
//! back and [`patch_effects`] which effects it records on the way.
//! [`is_render_of`] and [`render_effects`] say the same of a pass over a tree
//! that is already attached, which only looks for components to render again.

use crate::model::all_attached;
use crate::model::attach_effects;
use crate::model::ComponentModel;
use crate::model::detach_effects;
use crate::model::ElementModel;
use crate::model::list_remove_effects;
use crate::model::ListenerModel;
use crate::model::ListModel;
use crate::model::none_effects;
use crate::model::Pass;
use crate::model::removal_effects;
use crate::model::Tree;
use crate::model::unset_effects;
use crate::ordered::find;
use crate::ordered::names;
use crate::ordered::swap_removed;
use crate::target::EffectModel;
use crate::target::Handle;
use crate::target::Hook;
use crate::target::placed;
use vstd::prelude::*;

verus! {

/// The name of the class attribute.
pub open spec fn class_name() -> Seq<char> {
    "class"@
}

/// The value stored under `key`, if the key is present.
pub open spec fn lookup(entries: Seq<(Seq<char>, Seq<char>)>, key: Seq<char>) -> Option<Seq<char>> {
    match find(names(entries), key) {
        Some(i) => Some(entries[i].1),
        None => None,
    }
}

/// The entries without the one under `key`, removed by swap.
pub open spec fn without(entries: Seq<(Seq<char>, Seq<char>)>, key: Seq<char>) -> Seq<(Seq<char>, Seq<char>)> {
    match find(names(entries), key) {
        Some(i) => swap_removed(entries, i),
        None => entries,
    }
}

/// What is left of `old` once the keys `taken[..n]` were removed from it by
/// swap, first to last.
pub open spec fn leftover(old: Seq<(Seq<char>, Seq<char>)>, taken: Seq<Seq<char>>, n: int) -> Seq<
    (Seq<char>, Seq<char>),
>
    decreases n,
{
    if n <= 0 {
        old
    } else {
        without(leftover(old, taken, n - 1), taken[n - 1])
    }
}

/// Bringing the class of `node` from `old` to `new`: written where it is new
/// or differs, unset where it is gone.
pub open spec fn class_effects(old: Option<Seq<char>>, new: Option<Seq<char>>, node: Handle) -> Seq<EffectModel> {
    match new {
        Some(value) => if old != Some(value) {
            seq![EffectModel::SetAttribute { node, key: class_name(), value }]
        } else {
            none_effects()
        },
        None => match old {
            Some(_) => seq![EffectModel::RemoveAttribute { node, key: class_name() }],
            None => none_effects(),
        },
    }
}

/// Writing those of the attributes `new[..n]` that `old` does not hold with
/// the same value, first to last.
pub open spec fn set_effects(
    new: Seq<(Seq<char>, Seq<char>)>,
    old: Seq<(Seq<char>, Seq<char>)>,
    node: Handle,
    n: int,
) -> Seq<EffectModel>
    decreases n,
{
    if n <= 0 {
        none_effects()
    } else if lookup(old, new[n - 1].0) == Some(new[n - 1].1) {
        set_effects(new, old, node, n - 1)
    } else {
        set_effects(new, old, node, n - 1).push(
            EffectModel::SetAttribute { node, key: new[n - 1].0, value: new[n - 1].1 },
        )
    }
}

/// Bringing the attributes of `node` from `old` to `new`, key by key: what is
/// new or differs is written, in the order of `new`; what only `old` holds is
/// unset, in the order in which the removals by swap left it.
pub open spec fn attrs_effects(
    old: Option<Seq<(Seq<char>, Seq<char>)>>,
    new: Option<Seq<(Seq<char>, Seq<char>)>>,
    node: Handle,
) -> Seq<EffectModel> {
    match new {
        Some(entries) => match old {
            Some(before) => set_effects(entries, before, node, entries.len() as int) + unset_effects(
                leftover(before, names(entries), entries.len() as int),
                node,
                leftover(before, names(entries), entries.len() as int).len() as int,
            ),
            None => set_effects(entries, Seq::empty(), node, entries.len() as int),
        },
        None => match old {
            Some(before) => unset_effects(before, node, before.len() as int),
            None => none_effects(),
        },
    }
}

/// Bringing the listeners of `node` from `old` to `new`: every old one is
/// detached and every new one attached, whatever they are.
pub open spec fn events_effects(old: Option<Seq<ListenerModel>>, new: Seq<ListenerModel>, node: Handle) -> Seq<
    EffectModel,
> {
    (match old {
        Some(before) => detach_effects(before, before.len() as int),
        None => none_effects(),
    }) + attach_effects(new, node, new.len() as int)
}

/// The listeners `out` are those of `new`, attached.
pub open spec fn events_attached_from(out: Seq<ListenerModel>, new: Seq<ListenerModel>) -> bool {
    &&& out.len() == new.len()
    &&& all_attached(out)
    &&& forall|i: int|
        0 <= i < out.len() ==> (#[trigger] out[i]).event_type == new[i].event_type && out[i].callback
            == new[i].callback && out[i].spent
}

/// The node stored under `key`, if the key is present.
pub open spec fn lookup_node(list: ListModel, key: Seq<char>) -> Option<Tree> {
    match find(list.keys, key) {
        Some(i) => Some(list.nodes[i]),
        None => None,
    }
}

/// The list without the child under `key`, removed by swap.
pub open spec fn without_key(list: ListModel, key: Seq<char>) -> ListModel {
    match find(list.keys, key) {
        Some(i) => ListModel { keys: swap_removed(list.keys, i), nodes: swap_removed(list.nodes, i) },
        None => list,
    }
}

/// What is left of `old` once the keys `taken[from..]` were removed from it
/// by swap, last to first.
pub open spec fn remaining(old: ListModel, taken: Seq<Seq<char>>, from: int) -> ListModel
    decreases taken.len() - from,
{
    if from >= taken.len() {
        old
    } else {
        without_key(remaining(old, taken, from + 1), taken[from])
    }
}

/// Some child that the old list had stands before one that it followed there.
pub open spec fn dirty_order(old_keys: Seq<Seq<char>>, new_keys: Seq<Seq<char>>) -> bool {
    exists|i: int, j: int|
        0 <= i < j < new_keys.len() && (#[trigger] find(old_keys, new_keys[i])) is Some && (#[trigger] find(
            old_keys,
            new_keys[j],
        )) is Some && find(old_keys, new_keys[i])->0 > find(old_keys, new_keys[j])->0
}

/// The sibling before which child `i` of `out` is placed: the node of the
/// child after it, or `next` for the last child.
pub open spec fn next_at(out: Seq<Tree>, next: Option<Handle>, i: int) -> Option<Handle> {
    if i + 1 >= out.len() {
        next
    } else {
        out[i + 1].dom_node()
    }
}

/// The move of child `i` in the reordering sweep: a child that the old list
/// held at another position goes before the node of the child after it, or to
/// the end where it is the last child or the child after it has no node.
pub open spec fn reorder_step(out: ListModel, old_keys: Seq<Seq<char>>, parent: Handle, i: int) -> Seq<EffectModel> {
    match find(old_keys, out.keys[i]) {
        Some(old_position) => if old_position != i {
            match next_at(out.nodes, None, i) {
                Some(sibling) => out.nodes[i].move_before_effects(parent, sibling),
                None => out.nodes[i].move_to_last_effects(parent),
            }
        } else {
            none_effects()
        },
        None => none_effects(),
    }
}

/// The reordering sweep over the children `out[from..]`, last to first.
pub open spec fn reorder_effects(out: ListModel, old_keys: Seq<Seq<char>>, parent: Handle, from: int) -> Seq<
    EffectModel,
>
    decreases out.nodes.len() - from,
{
    if from >= out.nodes.len() {
        none_effects()
    } else {
        reorder_effects(out, old_keys, parent, from + 1) + reorder_step(out, old_keys, parent, from)
    }
}

/// The effects that a patch records while it brings the target from
/// `previous` to `out`, the attached form of `new`, under `parent` and before
/// `next`. A previous tree of another variant is torn down first and `out`
/// built as if nothing had been there.
pub open spec fn patch_effects(
    out: Tree,
    new: Tree,
    previous: Option<Tree>,
    parent: Handle,
    next: Option<Handle>,
) -> Seq<EffectModel>
    decreases out, 0nat, 0nat,
{
    match out {
        Tree::Text(text) => match previous {
            Some(Tree::Text(old)) => text.patch_effects(Some(old), parent, next),
            _ => removal_effects(previous, parent) + text.patch_effects(None, parent, next),
        },
        Tree::Element(element) => match (new, previous) {
            (Tree::Element(fresh), Some(Tree::Element(old))) => element_patch_effects(
                element,
                fresh,
                Some(old),
                parent,
                next,
            ),
            (Tree::Element(fresh), _) => removal_effects(previous, parent) + element_patch_effects(
                element,
                fresh,
                None,
                parent,
                next,
            ),
            _ => none_effects(),
        },
        Tree::List(list) => match (new, previous) {
            (Tree::List(fresh), Some(Tree::List(old))) => list_patch_effects(list, fresh, Some(old), parent, next),
            (Tree::List(fresh), _) => removal_effects(previous, parent) + list_patch_effects(
                list,
                fresh,
                None,
                parent,
                next,
            ),
            _ => none_effects(),
        },
        Tree::Component(component) => match (new, previous) {
            (Tree::Component(fresh), Some(Tree::Component(old))) => component_patch_effects(
                component,
                fresh,
                Some(old),
                parent,
                next,
            ),
            (Tree::Component(fresh), _) => removal_effects(previous, parent) + component_patch_effects(
                component,
                fresh,
                None,
                parent,
                next,
            ),
            _ => none_effects(),
        },
    }
}

/// The effects of patching the child of an element: the child is patched
/// under the element's own node, and a child that is gone is torn down.
pub open spec fn child_patch_effects(
    out: Option<Box<Tree>>,
    new: Option<Box<Tree>>,
    previous: Option<Box<Tree>>,
    node: Handle,
) -> Seq<EffectModel>
    decreases out, 0nat, 0nat,
{
    match (out, new) {
        (Some(child), Some(fresh)) => patch_effects(
            *child,
            *fresh,
            match previous {
                Some(old) => Some(*old),
                None => None,
            },
            node,
            None,
        ),
        _ => match previous {
            Some(old) => old.remove_effects(node),
            None => none_effects(),
        },
    }
}

/// The effects of patching an element. An element of the same tag keeps its
/// node and is brought up to date part by part: class, attributes, child,
/// listeners. Otherwise the previous element is torn down and a new one made,
/// filled part by part and then placed.
pub open spec fn element_patch_effects(
    out: ElementModel,
    new: ElementModel,
    previous: Option<ElementModel>,
    parent: Handle,
    next: Option<Handle>,
) -> Seq<EffectModel>
    decreases out, 1nat, 0nat,
{
    let node = out.handle->0;
    match previous {
        Some(old) => if old.tag == out.tag {
            class_effects(old.class, out.class, node) + attrs_effects(old.attrs, out.attrs, node)
                + child_patch_effects(out.child, new.child, old.child, node) + events_effects(
                Some(old.events),
                out.events,
                node,
            )
        } else {
            Tree::Element(old).remove_effects(parent) + element_create_effects(out, new, parent, next)
        },
        None => element_create_effects(out, new, parent, next),
    }
}

/// The effects of making an element anew.
pub open spec fn element_create_effects(out: ElementModel, new: ElementModel, parent: Handle, next: Option<Handle>) -> Seq<
    EffectModel,
>
    decreases out, 0nat, 1nat,
{
    let node = out.handle->0;
    seq![EffectModel::CreateElement { node, tag: out.tag }] + class_effects(None, out.class, node)
        + attrs_effects(None, out.attrs, node) + child_patch_effects(out.child, new.child, None, node)
        + events_effects(None, out.events, node) + placed(parent, node, next)
}

/// The sibling before which the child ahead of `rest` is placed: the node of
/// the first of `rest`, or `next` where nothing follows.
pub open spec fn first_node(rest: Seq<Tree>, next: Option<Handle>) -> Option<Handle> {
    if rest.len() == 0 {
        next
    } else {
        rest[0].dom_node()
    }
}

/// The effects of patching the last children of a list against an old list,
/// last to first; `done` is what came out of them. Each child is patched
/// against the old child of its key, if there is one, and before the node of
/// the child after it.
pub open spec fn suffix_patch_effects(
    done: Seq<Tree>,
    new: ListModel,
    old: ListModel,
    parent: Handle,
    next: Option<Handle>,
) -> Seq<EffectModel>
    decreases done, 0nat, 0nat,
{
    if done.len() == 0 {
        none_effects()
    } else {
        let at = new.nodes.len() - done.len();
        suffix_patch_effects(done.drop_first(), new, old, parent, next) + patch_effects(
            done.first(),
            new.nodes[at],
            lookup_node(old, new.keys[at]),
            parent,
            first_node(done.drop_first(), next),
        )
    }
}

/// A list without children: what a list is reconciled against where no
/// list was before.
pub open spec fn no_children() -> ListModel {
    ListModel { keys: Seq::empty(), nodes: Seq::empty() }
}

/// The effects of patching a list. Against an old list the children are
/// patched last to first, moved where the old order was broken, and the old
/// children whose keys are gone are torn down in the order in which the
/// removals by swap left them. Without one the children are built in the
/// same way, last to first and each before the node of the child after it,
/// the last of them before `next`.
pub open spec fn list_patch_effects(
    out: ListModel,
    new: ListModel,
    previous: Option<ListModel>,
    parent: Handle,
    next: Option<Handle>,
) -> Seq<EffectModel>
    decreases out, 1nat, 0nat,
{
    match previous {
        Some(old) => suffix_patch_effects(out.nodes, new, old, parent, next) + (if dirty_order(old.keys, out.keys) {
            reorder_effects(out, old.keys, parent, 0)
        } else {
            none_effects()
        }) + list_remove_effects(remaining(old, out.keys, 0).nodes, parent),
        None => suffix_patch_effects(out.nodes, new, no_children(), parent, next),
    }
}

/// The effects of patching a component. A previous component of the same
/// type goes on living and is rendered in place of the new one; one of
/// another type is torn down and the new one rendered for the first time.
pub open spec fn component_patch_effects(
    out: ComponentModel,
    new: ComponentModel,
    previous: Option<ComponentModel>,
    parent: Handle,
    next: Option<Handle>,
) -> Seq<EffectModel>
    decreases out, 2nat, 0nat,
{
    match previous {
        Some(old) => if old.kind == new.kind {
            component_render_effects(out, old, parent, next)
        } else {
            Tree::Component(old).remove_effects(parent) + component_render_effects(out, new, parent, next)
        },
        None => component_render_effects(out, new, parent, next),
    }
}

/// The effects of one pass over the component `before`, which left it as
/// `out`: a first render creates the instance where there is none, patches
/// what it rendered against nothing and fires `mounted`; a render after a
/// change of state patches against what was rendered before and fires
/// `updated`; otherwise the pass goes on into what was rendered before.
pub open spec fn component_render_effects(
    out: ComponentModel,
    before: ComponentModel,
    parent: Handle,
    next: Option<Handle>,
) -> Seq<EffectModel>
    decreases out, 1nat, 0nat,
{
    match out.pass {
        Pass::Mounted => match (out.rendered, out.source) {
            (Some(rendered), Some(source)) => (match before.instance {
                Some(_) => none_effects(),
                None => seq![EffectModel::Lifecycle { component: out.instance->0, hook: Hook::Created }],
            }) + patch_effects(*rendered, *source, None, parent, next) + seq![
                EffectModel::Lifecycle { component: out.instance->0, hook: Hook::Mounted },
            ],
            _ => none_effects(),
        },
        Pass::Updated => match (out.rendered, out.source, before.rendered) {
            (Some(rendered), Some(source), Some(old)) => patch_effects(
                *rendered,
                *source,
                Some(*old),
                parent,
                next,
            ) + seq![EffectModel::Lifecycle { component: out.instance->0, hook: Hook::Updated }],
            _ => none_effects(),
        },
        Pass::Propagated => match (out.rendered, before.rendered) {
            (Some(rendered), Some(old)) => render_effects(*rendered, *old, parent, next),
            _ => none_effects(),
        },
        Pass::Skipped => none_effects(),
        Pass::Pending => none_effects(),
    }
}

/// The effects of a pass over the attached tree `before`, which left it as
/// `out`: texts are passed by, elements and lists searched, components
/// rendered where they are due.
pub open spec fn render_effects(out: Tree, before: Tree, parent: Handle, next: Option<Handle>) -> Seq<EffectModel>
    decreases out, 0nat, 0nat,
{
    match (out, before) {
        (Tree::Element(element), Tree::Element(old)) => match (element.child, old.child) {
            (Some(child), Some(old_child)) => render_effects(*child, *old_child, parent, next),
            _ => none_effects(),
        },
        (Tree::List(list), Tree::List(old)) => prefix_render_effects(list.nodes, old, parent, next),
        (Tree::Component(component), Tree::Component(old)) => component_render_effects(
            component,
            old,
            parent,
            next,
        ),
        _ => none_effects(),
    }
}

/// The effects of a pass over the first children of a list, first to last;
/// `done` is what the pass left of them.
pub open spec fn prefix_render_effects(
    done: Seq<Tree>,
    before: ListModel,
    parent: Handle,
    next: Option<Handle>,
) -> Seq<EffectModel>
    decreases done, 0nat, 0nat,
{
    if done.len() == 0 {
        none_effects()
    } else {
        prefix_render_effects(done.drop_last(), before, parent, next) + render_effects(
            done.last(),
            before.nodes[done.len() - 1],
            parent,
            next,
        )
    }
}

/// `out` is a tree that patching `new` against `previous` may hand back,
/// with components allowed to nest `depth` deep: it shows what `new` shows,
/// on the nodes of `previous` wherever those are kept.
pub open spec fn is_patch_of(out: Tree, new: Tree, previous: Option<Tree>, depth: nat) -> bool
    decreases out, 0nat,
{
    match (out, new) {
        (Tree::Text(text), Tree::Text(fresh)) => text.is_patch_of(
            fresh,
            match previous {
                Some(Tree::Text(old)) => Some(old),
                _ => None,
            },
        ),
        (Tree::Element(element), Tree::Element(fresh)) => element_is_patch_of(
            element,
            fresh,
            match previous {
                Some(Tree::Element(old)) => Some(old),
                _ => None,
            },
            depth,
        ),
        (Tree::List(list), Tree::List(fresh)) => list_is_patch_of(
            list,
            fresh,
            match previous {
                Some(Tree::List(old)) => Some(old),
                _ => None,
            },
            depth,
        ),
        (Tree::Component(component), Tree::Component(fresh)) => component_is_patch_of(
            component,
            fresh,
            match previous {
                Some(Tree::Component(old)) => Some(old),
                _ => None,
            },
            depth,
        ),
        _ => false,
    }
}

/// The child of an element that came out of a patch.
pub open spec fn child_is_patch_of(
    out: Option<Box<Tree>>,
    new: Option<Box<Tree>>,
    previous: Option<Box<Tree>>,
    depth: nat,
) -> bool
    decreases out, 0nat,
{
    match (out, new) {
        (Some(child), Some(fresh)) => is_patch_of(
            *child,
            *fresh,
            match previous {
                Some(old) => Some(*old),
                None => None,
            },
            depth,
        ),
        (None, None) => true,
        _ => false,
    }
}

/// An element that came out of a patch has the tag, class, attributes and
/// self-closing flag of `new`, its listeners attached, its child patched, and
/// the node of a previous element of the same tag where there is one.
pub open spec fn element_is_patch_of(
    out: ElementModel,
    new: ElementModel,
    previous: Option<ElementModel>,
    depth: nat,
) -> bool
    decreases out, 1nat,
{
    &&& out.tag == new.tag
    &&& out.class == new.class
    &&& out.attrs == new.attrs
    &&& out.self_closing == new.self_closing
    &&& events_attached_from(out.events, new.events)
    &&& out.handle is Some
    &&& match previous {
        Some(old) => if old.tag == new.tag {
            out.handle == old.handle && child_is_patch_of(out.child, new.child, old.child, depth)
        } else {
            child_is_patch_of(out.child, new.child, None, depth)
        },
        None => child_is_patch_of(out.child, new.child, None, depth),
    }
}

/// A list that came out of a patch has the keys of `new` in their order, and
/// each child patched against the old child of its key.
pub open spec fn list_is_patch_of(out: ListModel, new: ListModel, previous: Option<ListModel>, depth: nat) -> bool
    decreases out, 1nat,
{
    &&& out.keys == new.keys
    &&& out.nodes.len() == new.nodes.len()
    &&& forall|i: int|
        0 <= i < out.nodes.len() ==> is_patch_of(
            #[trigger] out.nodes[i],
            new.nodes[i],
            match previous {
                Some(old) => lookup_node(old, out.keys[i]),
                None => None,
            },
            depth,
        )
}

/// A component that came out of a patch is the previous one, rendered, where
/// that is of the same type, and else the new one, rendered.
pub open spec fn component_is_patch_of(
    out: ComponentModel,
    new: ComponentModel,
    previous: Option<ComponentModel>,
    depth: nat,
) -> bool
    decreases out, 2nat,
{
    match previous {
        Some(old) => if old.kind == new.kind {
            component_is_render_of(out, old, depth)
        } else {
            component_is_render_of(out, new, depth)
        },
        None => component_is_render_of(out, new, depth),
    }
}

/// `out` is what one pass may leave of the component `before`. Whether a
/// component that has rendered before is rendered again depends on its state,
/// which no tree shows: either outcome is allowed here.
pub open spec fn component_is_render_of(out: ComponentModel, before: ComponentModel, depth: nat) -> bool
    decreases out, 1nat,
{
    component_is_pass_of(out, before, true, depth) || component_is_pass_of(out, before, false, depth)
}

/// The component has no instance and can get none: its props went into the
/// instance that rendered it without a target.
pub open spec fn cannot_start(component: ComponentModel) -> bool {
    component.instance is None && component.served is Some
}

/// `out` is what one pass leaves of the component `before` whose state had
/// changed (`dirty`) or not.
pub open spec fn component_is_pass_of(out: ComponentModel, before: ComponentModel, dirty: bool, depth: nat) -> bool
    decreases out, 0nat,
{
    &&& out.kind == before.kind
    &&& out.served == before.served
    &&& match before.rendered {
        None => if depth == 0 || cannot_start(before) {
            out == (ComponentModel { pass: Pass::Skipped, ..before })
        } else {
            &&& out.pass == Pass::Mounted
            &&& out.instance is Some
            &&& before.instance is Some ==> out.instance == before.instance
            &&& out.rendered is Some
            &&& out.source is Some
            &&& is_patch_of(*out.rendered->0, *out.source->0, None, (depth - 1) as nat)
        },
        Some(old) => if !dirty {
            &&& out.pass == Pass::Propagated
            &&& out.instance == before.instance
            &&& out.source == before.source
            &&& out.rendered is Some
            &&& is_render_of(*out.rendered->0, *old, depth)
        } else if depth == 0 {
            out == (ComponentModel { pass: Pass::Skipped, ..before })
        } else {
            &&& out.pass == Pass::Updated
            &&& out.instance == before.instance
            &&& out.rendered is Some
            &&& out.source is Some
            &&& is_patch_of(*out.rendered->0, *out.source->0, Some(*old), (depth - 1) as nat)
        },
    }
}

/// `out` is what a pass may leave of the attached tree `before`: the same
/// tree, but for the components in it that were rendered.
pub open spec fn is_render_of(out: Tree, before: Tree, depth: nat) -> bool
    decreases out, 0nat,
{
    match (out, before) {
        (Tree::Text(text), Tree::Text(old)) => text == old,
        (Tree::Element(element), Tree::Element(old)) => {
            &&& element.tag == old.tag
            &&& element.class == old.class
            &&& element.attrs == old.attrs
            &&& element.self_closing == old.self_closing
            &&& element.events == old.events
            &&& element.handle == old.handle
            &&& match (element.child, old.child) {
                (Some(child), Some(old_child)) => is_render_of(*child, *old_child, depth),
                (None, None) => true,
                _ => false,
            }
        },
        (Tree::List(list), Tree::List(old)) => {
            &&& list.keys == old.keys
            &&& list.nodes.len() == old.nodes.len()
            &&& forall|i: int|
                0 <= i < list.nodes.len() ==> is_render_of(#[trigger] list.nodes[i], old.nodes[i], depth)
        },
        (Tree::Component(component), Tree::Component(old)) => component_is_render_of(component, old, depth),
        _ => false,
    }
}

/// `out` is what rendering the tree `before` without a target may leave of
/// it, with components allowed to nest `depth` deep: the same tree, but that
/// every component which had neither instance nor anything to show was
/// created and holds what it rendered.
pub open spec fn is_served(out: Tree, before: Tree, depth: nat) -> bool
    decreases out, 0nat,
{
    match (out, before) {
        (Tree::Text(text), Tree::Text(old)) => text == old,
        (Tree::Element(element), Tree::Element(old)) => {
            &&& element == (ElementModel { child: element.child, ..old })
            &&& match (element.child, old.child) {
                (Some(child), Some(old_child)) => is_served(*child, *old_child, depth),
                (None, None) => true,
                _ => false,
            }
        },
        (Tree::List(list), Tree::List(old)) => {
            &&& list.keys == old.keys
            &&& list.nodes.len() == old.nodes.len()
            &&& forall|i: int|
                0 <= i < list.nodes.len() ==> is_served(#[trigger] list.nodes[i], old.nodes[i], depth)
        },
        (Tree::Component(component), Tree::Component(old)) => component_is_served(component, old, depth),
        _ => false,
    }
}

/// No component of the tree has an instance or has rendered, with a target
/// or without: the tree is as it was described.
pub open spec fn is_unrendered(tree: Tree) -> bool
    decreases tree,
{
    match tree {
        Tree::Text(_) => true,
        Tree::Element(element) => match element.child {
            Some(child) => is_unrendered(*child),
            None => true,
        },
        Tree::List(list) => forall|i: int| 0 <= i < list.nodes.len() ==> is_unrendered(#[trigger] list.nodes[i]),
        Tree::Component(component) => component.instance is None && component.rendered is None
            && component.served is None,
    }
}

/// What rendering without a target leaves of a component that is as it was
/// described. Where `depth` allows it the component holds what its instance
/// returned, rendered in turn; a tree in which a component has rendered
/// before is held as it was returned.
pub open spec fn component_is_served(out: ComponentModel, before: ComponentModel, depth: nat) -> bool
    decreases out, 1nat,
{
    if depth > 0 && before.instance is None && before.rendered is None && before.served is None {
        &&& out == (ComponentModel { source: out.source, served: out.served, ..before })
        &&& out.source is Some
        &&& out.served is Some
        &&& if is_unrendered(*out.source->0) {
            is_served(*out.served->0, *out.source->0, (depth - 1) as nat)
        } else {
            out.served == out.source
        }
    } else {
        out == before
    }
}

} // verus!
