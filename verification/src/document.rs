//! What a record of effects does to a document.
//!
//! The document is taken no further than is needed to say what is attached:
//! each node that is attached knows its parent, and the listeners that are
//! attached are known. Placing a node attaches it, removing it detaches it,
//! wherever it was.

use crate::model::attach_effects;
use crate::model::detach_effects;
use crate::model::ElementModel;
use crate::model::list_remove_effects;
use crate::model::ListenerModel;
use crate::model::ListModel;
use crate::model::none_effects;
use crate::model::Pass;
use crate::model::Tree;
use crate::model::unset_effects;
use crate::patching::attrs_effects;
use crate::patching::child_patch_effects;
use crate::patching::class_effects;
use crate::patching::component_is_pass_of;
use crate::patching::component_render_effects;
use crate::patching::dirty_order;
use crate::patching::element_create_effects;
use crate::patching::events_effects;
use crate::patching::first_node;
use crate::patching::is_patch_of;
use crate::patching::is_unrendered;
use crate::patching::list_patch_effects;
use crate::patching::lookup_node;
use crate::patching::no_children;
use crate::patching::patch_effects;
use crate::patching::remaining;
use crate::patching::reorder_effects;
use crate::patching::set_effects;
use crate::patching::suffix_patch_effects;
use crate::target::EffectModel;
use crate::target::Handle;
use crate::target::introduced;
use crate::target::numbered;
use crate::target::placed;
use vstd::prelude::*;

verus! {

/// What is attached in a document: the parent of each attached node, and the
/// attached listeners.
pub struct Document {
    pub parents: Map<Handle, Handle>,
    pub listeners: Set<Handle>,
}

/// The document after one effect.
pub open spec fn apply(document: Document, effect: EffectModel) -> Document {
    match effect {
        EffectModel::AppendChild { parent, node } => Document {
            parents: document.parents.insert(node, parent),
            ..document
        },
        EffectModel::InsertBefore { parent, node, .. } => Document {
            parents: document.parents.insert(node, parent),
            ..document
        },
        EffectModel::RemoveChild { node, .. } => Document { parents: document.parents.remove(node), ..document },
        EffectModel::AddEventListener { listener, .. } => Document {
            listeners: document.listeners.insert(listener),
            ..document
        },
        EffectModel::RemoveEventListener { listener } => Document {
            listeners: document.listeners.remove(listener),
            ..document
        },
        _ => document,
    }
}

/// The document after the effects, first to last.
pub open spec fn replay(document: Document, effects: Seq<EffectModel>) -> Document
    decreases effects.len(),
{
    if effects.len() == 0 {
        document
    } else {
        apply(replay(document, effects.drop_last()), effects.last())
    }
}

/// The document without the nodes and without the listeners.
pub open spec fn without_handles(document: Document, nodes: Set<Handle>, listeners: Set<Handle>) -> Document {
    Document { parents: document.parents.remove_keys(nodes), listeners: document.listeners.difference(listeners) }
}

/// The listeners of the bindings `events[..n]`.
pub open spec fn bound_listeners(events: Seq<ListenerModel>, n: int) -> Set<Handle>
    decreases n,
{
    if n <= 0 {
        Set::empty()
    } else {
        bound_listeners(events, n - 1).insert(events[n - 1].handle->0)
    }
}

/// The nodes of the target that stand for the tree.
pub open spec fn node_handles(tree: Tree) -> Set<Handle>
    decreases tree,
{
    match tree {
        Tree::Text(text) => set![text.handle->0],
        Tree::Element(element) => (match element.child {
            Some(child) => node_handles(*child),
            None => Set::empty(),
        }).insert(element.handle->0),
        Tree::List(list) => nodes_handles(list.nodes),
        Tree::Component(component) => match component.rendered {
            Some(rendered) => node_handles(*rendered),
            None => Set::empty(),
        },
    }
}

/// The nodes of the target that stand for the trees.
pub open spec fn nodes_handles(nodes: Seq<Tree>) -> Set<Handle>
    decreases nodes,
{
    if nodes.len() == 0 {
        Set::empty()
    } else {
        nodes_handles(nodes.drop_last()).union(node_handles(nodes.last()))
    }
}

/// The listeners of the target that the tree has attached.
pub open spec fn listener_handles(tree: Tree) -> Set<Handle>
    decreases tree,
{
    match tree {
        Tree::Text(_) => Set::empty(),
        Tree::Element(element) => (match element.child {
            Some(child) => listener_handles(*child),
            None => Set::empty(),
        }).union(bound_listeners(element.events, element.events.len() as int)),
        Tree::List(list) => nodes_listeners(list.nodes),
        Tree::Component(component) => match component.rendered {
            Some(rendered) => listener_handles(*rendered),
            None => Set::empty(),
        },
    }
}

/// The listeners of the target that the trees have attached.
pub open spec fn nodes_listeners(nodes: Seq<Tree>) -> Set<Handle>
    decreases nodes,
{
    if nodes.len() == 0 {
        Set::empty()
    } else {
        nodes_listeners(nodes.drop_last()).union(listener_handles(nodes.last()))
    }
}

/// Every component of the tree that has rendered has done so in its first
/// pass: the tree was built where nothing was before.
pub open spec fn is_first_pass(tree: Tree) -> bool
    decreases tree,
{
    match tree {
        Tree::Text(_) => true,
        Tree::Element(element) => match element.child {
            Some(child) => is_first_pass(*child),
            None => true,
        },
        Tree::List(list) => forall|i: int| 0 <= i < list.nodes.len() ==> is_first_pass(#[trigger] list.nodes[i]),
        Tree::Component(component) => match component.rendered {
            Some(rendered) => component.pass == Pass::Mounted && component.source is Some && is_first_pass(
                *rendered,
            ),
            None => component.pass != Pass::Mounted && component.pass != Pass::Updated && component.pass
                != Pass::Propagated,
        },
    }
}

/// What the components of the tree returned when they rendered was as it
/// was described: no component in it had rendered before.
pub open spec fn renders_unrendered(tree: Tree) -> bool
    decreases tree,
{
    match tree {
        Tree::Text(_) => true,
        Tree::Element(element) => match element.child {
            Some(child) => renders_unrendered(*child),
            None => true,
        },
        Tree::List(list) => forall|i: int|
            0 <= i < list.nodes.len() ==> renders_unrendered(#[trigger] list.nodes[i]),
        Tree::Component(component) => match (component.rendered, component.source) {
            (Some(rendered), Some(source)) => is_unrendered(*source) && renders_unrendered(*rendered),
            _ => true,
        },
    }
}

/// A tree in which no component has rendered, patched against nothing, comes
/// out built in its first pass, as long as its components return trees in
/// which no component has rendered either.
pub proof fn lemma_patch_against_nothing_is_first_pass(out: Tree, new: Tree, depth: nat)
    requires
        is_patch_of(out, new, None, depth),
        is_unrendered(new),
        renders_unrendered(out),
    ensures
        is_first_pass(out),
    decreases out,
{
    match (out, new) {
        (Tree::Element(element), Tree::Element(fresh)) => {
            assert(crate::patching::element_is_patch_of(element, fresh, None, depth));
            assert(crate::patching::child_is_patch_of(element.child, fresh.child, None, depth));
            match (element.child, fresh.child) {
                (Some(child), Some(fresh_child)) => {
                    lemma_patch_against_nothing_is_first_pass(*child, *fresh_child, depth);
                },
                _ => {},
            }
        },
        (Tree::List(list), Tree::List(fresh)) => {
            assert(crate::patching::list_is_patch_of(list, fresh, None, depth));
            assert forall|i: int| 0 <= i < list.nodes.len() implies is_first_pass(#[trigger] list.nodes[i]) by {
                assert(is_patch_of(list.nodes[i], fresh.nodes[i], None, depth));
                assert(is_unrendered(fresh.nodes[i]));
                assert(renders_unrendered(list.nodes[i]));
                lemma_patch_against_nothing_is_first_pass(list.nodes[i], fresh.nodes[i], depth);
            }
        },
        (Tree::Component(component), Tree::Component(fresh)) => {
            assert(crate::patching::component_is_patch_of(component, fresh, None, depth));
            assert(crate::patching::component_is_render_of(component, fresh, depth));
            assert(component_is_pass_of(component, fresh, true, depth) || component_is_pass_of(
                component,
                fresh,
                false,
                depth,
            ));
            match (component.rendered, component.source) {
                (Some(rendered), Some(source)) => {
                    lemma_patch_against_nothing_is_first_pass(*rendered, *source, (depth - 1) as nat);
                },
                _ => {},
            }
        },
        _ => {},
    }
}

/// Two documents differ at most in the given nodes and listeners.
pub open spec fn same_but_for(a: Document, b: Document, nodes: Set<Handle>, listeners: Set<Handle>) -> bool {
    &&& forall|node: Handle|
        !nodes.contains(node) ==> (#[trigger] a.parents.dom().contains(node)) == b.parents.dom().contains(node)
            && (a.parents.dom().contains(node) ==> a.parents[node] == b.parents[node])
    &&& forall|listener: Handle|
        !listeners.contains(listener) ==> (#[trigger] a.listeners.contains(listener)) == b.listeners.contains(
            listener,
        )
}

/// Replaying one record after another is replaying both.
pub proof fn lemma_replay_concat(document: Document, first: Seq<EffectModel>, second: Seq<EffectModel>)
    ensures
        replay(document, first + second) == replay(replay(document, first), second),
    decreases second.len(),
{
    if second.len() == 0 {
        assert(first + second =~= first);
    } else {
        lemma_replay_concat(document, first, second.drop_last());
        assert((first + second).drop_last() =~= first + second.drop_last());
        assert((first + second).last() == second.last());
    }
}

/// Replaying one effect is applying it.
pub proof fn lemma_replay_one(document: Document, effect: EffectModel)
    ensures
        replay(document, seq![effect]) == apply(document, effect),
{
    assert(seq![effect].drop_last() =~= Seq::<EffectModel>::empty());
    assert(replay(document, Seq::<EffectModel>::empty()) == document);
    assert(seq![effect].last() == effect);
}

/// Writing and unsetting attributes attaches and detaches nothing.
pub proof fn lemma_attributes_attach_nothing(
    document: Document,
    old: Option<Seq<(Seq<char>, Seq<char>)>>,
    new: Option<Seq<(Seq<char>, Seq<char>)>>,
    class_before: Option<Seq<char>>,
    class_after: Option<Seq<char>>,
    node: Handle,
)
    ensures
        replay(document, attrs_effects(old, new, node)) == document,
        replay(document, class_effects(class_before, class_after, node)) == document,
{
    let class = class_effects(class_before, class_after, node);
    if class.len() > 0 {
        assert(class =~= seq![class[0]]);
        lemma_replay_one(document, class[0]);
    }
    match new {
        Some(entries) => match old {
            Some(before) => {
                let stale = crate::patching::leftover(before, crate::ordered::names(entries), entries.len() as int);
                lemma_set_attaches_nothing(document, entries, before, node, entries.len() as int);
                lemma_unset_attaches_nothing(document, stale, node, stale.len() as int);
                lemma_replay_concat(
                    document,
                    set_effects(entries, before, node, entries.len() as int),
                    unset_effects(stale, node, stale.len() as int),
                );
            },
            None => {
                lemma_set_attaches_nothing(document, entries, Seq::empty(), node, entries.len() as int);
            },
        },
        None => match old {
            Some(before) => {
                lemma_unset_attaches_nothing(document, before, node, before.len() as int);
            },
            None => {},
        },
    }
}

/// Writing attributes attaches and detaches nothing.
proof fn lemma_set_attaches_nothing(
    document: Document,
    new: Seq<(Seq<char>, Seq<char>)>,
    old: Seq<(Seq<char>, Seq<char>)>,
    node: Handle,
    n: int,
)
    ensures
        replay(document, set_effects(new, old, node, n)) == document,
    decreases n,
{
    if n > 0 {
        lemma_set_attaches_nothing(document, new, old, node, n - 1);
        let effects = set_effects(new, old, node, n);
        if effects.len() > 0 && effects != set_effects(new, old, node, n - 1) {
            assert(effects.drop_last() =~= set_effects(new, old, node, n - 1));
        }
    }
}

/// Unsetting attributes attaches and detaches nothing.
proof fn lemma_unset_attaches_nothing(document: Document, attrs: Seq<(Seq<char>, Seq<char>)>, node: Handle, n: int)
    ensures
        replay(document, unset_effects(attrs, node, n)) == document,
    decreases n,
{
    if n > 0 {
        lemma_unset_attaches_nothing(document, attrs, node, n - 1);
        assert(unset_effects(attrs, node, n).drop_last() =~= unset_effects(attrs, node, n - 1));
    }
}

/// Attaching bindings attaches their listeners and nothing else.
pub proof fn lemma_attach(document: Document, events: Seq<ListenerModel>, node: Handle, n: int)
    ensures
        replay(document, attach_effects(events, node, n)) == (Document {
            listeners: document.listeners.union(bound_listeners(events, n)),
            ..document
        }),
    decreases n,
{
    if n > 0 {
        lemma_attach(document, events, node, n - 1);
        assert(attach_effects(events, node, n).drop_last() =~= attach_effects(events, node, n - 1));
        assert(document.listeners.union(bound_listeners(events, n - 1)).insert(events[n - 1].handle->0)
            =~= document.listeners.union(bound_listeners(events, n)));
    } else {
        assert(document.listeners.union(bound_listeners(events, n)) =~= document.listeners);
    }
}

/// Detaching bindings detaches their listeners and nothing else.
pub proof fn lemma_detach(document: Document, events: Seq<ListenerModel>, n: int)
    ensures
        replay(document, detach_effects(events, n)) == (Document {
            listeners: document.listeners.difference(bound_listeners(events, n)),
            ..document
        }),
    decreases n,
{
    if n > 0 {
        lemma_detach(document, events, n - 1);
        assert(detach_effects(events, n).drop_last() =~= detach_effects(events, n - 1));
        assert(document.listeners.difference(bound_listeners(events, n - 1)).remove(events[n - 1].handle->0)
            =~= document.listeners.difference(bound_listeners(events, n)));
    } else {
        assert(document.listeners.difference(bound_listeners(events, n)) =~= document.listeners);
    }
}

/// Placing a node attaches it under its parent.
pub proof fn lemma_placed(document: Document, parent: Handle, node: Handle, next: Option<Handle>)
    ensures
        replay(document, placed(parent, node, next)) == (Document {
            parents: document.parents.insert(node, parent),
            ..document
        }),
{
    let effects = placed(parent, node, next);
    assert(effects =~= seq![effects[0]]);
    lemma_replay_one(document, effects[0]);
}

/// Tearing a tree down detaches every node and every listener of the tree,
/// and nothing else.
pub proof fn lemma_removal_detaches_the_tree(document: Document, tree: Tree, parent: Handle)
    ensures
        replay(document, tree.remove_effects(parent)) == without_handles(
            document,
            node_handles(tree),
            listener_handles(tree),
        ),
    decreases tree, 1nat,
{
    let nodes = node_handles(tree);
    let listeners = listener_handles(tree);
    match tree {
        Tree::Text(text) => {
            lemma_replay_one(document, EffectModel::RemoveChild { parent, node: text.handle->0 });
            assert(document.parents.remove(text.handle->0) =~= document.parents.remove_keys(nodes));
            assert(document.listeners =~= document.listeners.difference(listeners));
        },
        Tree::Element(element) => {
            let node = element.handle->0;
            let detached = detach_effects(element.events, element.events.len() as int);
            let below = match element.child {
                Some(child) => child.remove_effects(node),
                None => none_effects(),
            };
            let leave = seq![EffectModel::RemoveChild { parent, node }];
            let bound = bound_listeners(element.events, element.events.len() as int);
            lemma_detach(document, element.events, element.events.len() as int);
            let first = replay(document, detached);
            let second = replay(first, below);
            match element.child {
                Some(child) => {
                    lemma_removal_detaches_the_tree(first, *child, node);
                },
                None => {},
            }
            lemma_replay_one(second, EffectModel::RemoveChild { parent, node });
            lemma_replay_concat(document, detached, below);
            lemma_replay_concat(document, detached + below, leave);
            let last = replay(document, tree.remove_effects(parent));
            assert(last.parents =~= document.parents.remove_keys(nodes));
            assert(last.listeners =~= document.listeners.difference(listeners));
        },
        Tree::List(list) => {
            lemma_list_removal_detaches_the_trees(document, list.nodes, parent);
        },
        Tree::Component(component) => {
            let below = match component.rendered {
                Some(rendered) => rendered.remove_effects(parent),
                None => none_effects(),
            };
            let destroyed = match component.instance {
                Some(id) => seq![EffectModel::Lifecycle { component: id, hook: crate::target::Hook::Destroyed }],
                None => none_effects(),
            };
            match component.rendered {
                Some(rendered) => {
                    lemma_removal_detaches_the_tree(document, *rendered, parent);
                },
                None => {
                    assert(document.parents =~= document.parents.remove_keys(nodes));
                    assert(document.listeners =~= document.listeners.difference(listeners));
                },
            }
            let first = replay(document, below);
            match component.instance {
                Some(id) => {
                    lemma_replay_one(
                        first,
                        EffectModel::Lifecycle { component: id, hook: crate::target::Hook::Destroyed },
                    );
                },
                None => {},
            }
            lemma_replay_concat(document, below, destroyed);
        },
    }
}

/// Tearing trees down detaches every node and every listener of the trees,
/// and nothing else.
pub proof fn lemma_list_removal_detaches_the_trees(document: Document, nodes: Seq<Tree>, parent: Handle)
    ensures
        replay(document, list_remove_effects(nodes, parent)) == without_handles(
            document,
            nodes_handles(nodes),
            nodes_listeners(nodes),
        ),
    decreases nodes, 0nat,
{
    if nodes.len() == 0 {
        assert(document.parents =~= document.parents.remove_keys(nodes_handles(nodes)));
        assert(document.listeners =~= document.listeners.difference(nodes_listeners(nodes)));
    } else {
        lemma_list_removal_detaches_the_trees(document, nodes.drop_last(), parent);
        let first = replay(document, list_remove_effects(nodes.drop_last(), parent));
        lemma_removal_detaches_the_tree(first, nodes.last(), parent);
        lemma_replay_concat(
            document,
            list_remove_effects(nodes.drop_last(), parent),
            nodes.last().remove_effects(parent),
        );
        let last = replay(document, list_remove_effects(nodes, parent));
        assert(last.parents =~= document.parents.remove_keys(nodes_handles(nodes)));
        assert(last.listeners =~= document.listeners.difference(nodes_listeners(nodes)));
    }
}

/// Building a tree where nothing was before touches no node and no listener
/// but those of the tree.
pub proof fn lemma_building_touches_only_the_tree(
    document: Document,
    out: Tree,
    new: Tree,
    parent: Handle,
    next: Option<Handle>,
)
    requires
        is_first_pass(out),
    ensures
        same_but_for(
            replay(document, patch_effects(out, new, None, parent, next)),
            document,
            node_handles(out),
            listener_handles(out),
        ),
    decreases out, 1nat,
{
    let effects = patch_effects(out, new, None, parent, next);
    assert(none_effects() + effects =~= effects);
    match (out, new) {
        (Tree::Text(text), _) => {
            let node = text.handle->0;
            let create = seq![EffectModel::CreateText { node, content: text.content }];
            lemma_replay_one(document, EffectModel::CreateText { node, content: text.content });
            lemma_placed(document, parent, node, next);
            lemma_replay_concat(document, create, placed(parent, node, next));
        },
        (Tree::Element(element), Tree::Element(fresh)) => {
            let node = element.handle->0;
            let create = seq![EffectModel::CreateElement { node, tag: element.tag }];
            let class = class_effects(None, element.class, node);
            let attrs = attrs_effects(None, element.attrs, node);
            let below = child_patch_effects(element.child, fresh.child, None, node);
            let events = events_effects(None, element.events, node);
            let place = placed(parent, node, next);
            lemma_replay_one(document, EffectModel::CreateElement { node, tag: element.tag });
            lemma_attributes_attach_nothing(document, None, element.attrs, None, element.class, node);
            match (element.child, fresh.child) {
                (Some(child), Some(fresh_child)) => {
                    lemma_building_touches_only_the_tree(document, *child, *fresh_child, node, None);
                },
                _ => {},
            }
            let built = replay(document, below);
            assert(none_effects() + attach_effects(element.events, node, element.events.len() as int)
                =~= attach_effects(element.events, node, element.events.len() as int));
            lemma_attach(built, element.events, node, element.events.len() as int);
            let bound = replay(built, events);
            lemma_placed(bound, parent, node, next);
            lemma_replay_concat(document, create, class);
            lemma_replay_concat(document, create + class, attrs);
            lemma_replay_concat(document, create + class + attrs, below);
            lemma_replay_concat(document, create + class + attrs + below, events);
            lemma_replay_concat(document, create + class + attrs + below + events, place);
            assert(element_create_effects(element, fresh, parent, next) == create + class + attrs + below + events
                + place);
        },
        (Tree::List(list), Tree::List(fresh)) => {
            lemma_building_touches_only_the_trees(document, list.nodes, fresh, parent, next);
        },
        (Tree::Component(component), Tree::Component(fresh)) => {
            match (component.rendered, component.source) {
                (Some(rendered), Some(source)) => {
                    let created = match fresh.instance {
                        Some(_) => none_effects(),
                        None => seq![
                            EffectModel::Lifecycle {
                                component: component.instance->0,
                                hook: crate::target::Hook::Created,
                            },
                        ],
                    };
                    let below = patch_effects(*rendered, *source, None, parent, next);
                    let mounted = seq![
                        EffectModel::Lifecycle {
                            component: component.instance->0,
                            hook: crate::target::Hook::Mounted,
                        },
                    ];
                    if fresh.instance is None {
                        lemma_replay_one(
                            document,
                            EffectModel::Lifecycle {
                                component: component.instance->0,
                                hook: crate::target::Hook::Created,
                            },
                        );
                    }
                    lemma_building_touches_only_the_tree(document, *rendered, *source, parent, next);
                    let built = replay(document, below);
                    lemma_replay_one(
                        built,
                        EffectModel::Lifecycle {
                            component: component.instance->0,
                            hook: crate::target::Hook::Mounted,
                        },
                    );
                    lemma_replay_concat(document, created, below);
                    lemma_replay_concat(document, created + below, mounted);
                    assert(component_render_effects(component, fresh, parent, next) == created + below + mounted);
                },
                _ => {},
            }
        },
        _ => {},
    }
}

/// The nodes and listeners of trees are those of the first and those of the
/// others.
pub proof fn lemma_handles_of_first_and_rest(nodes: Seq<Tree>)
    requires
        nodes.len() > 0,
    ensures
        nodes_handles(nodes) == node_handles(nodes.first()).union(nodes_handles(nodes.drop_first())),
        nodes_listeners(nodes) == listener_handles(nodes.first()).union(nodes_listeners(nodes.drop_first())),
    decreases nodes.len(),
{
    let rest = nodes.drop_first();
    if nodes.len() == 1 {
        assert(nodes.drop_last() =~= Seq::<Tree>::empty());
        assert(rest =~= Seq::<Tree>::empty());
        assert(nodes.last() == nodes.first());
        assert(nodes_handles(nodes) =~= node_handles(nodes.first()).union(nodes_handles(rest)));
        assert(nodes_listeners(nodes) =~= listener_handles(nodes.first()).union(nodes_listeners(rest)));
    } else {
        let front = nodes.drop_last();
        lemma_handles_of_first_and_rest(front);
        assert(front.first() == nodes.first());
        assert(front.drop_first() =~= rest.drop_last());
        assert(rest.last() == nodes.last());
        assert(nodes_handles(nodes) =~= node_handles(nodes.first()).union(nodes_handles(rest)));
        assert(nodes_listeners(nodes) =~= listener_handles(nodes.first()).union(nodes_listeners(rest)));
    }
}

/// Building trees where nothing was before, last to first, touches no node
/// and no listener but those of the trees.
pub proof fn lemma_building_touches_only_the_trees(
    document: Document,
    done: Seq<Tree>,
    new: ListModel,
    parent: Handle,
    next: Option<Handle>,
)
    requires
        forall|i: int| 0 <= i < done.len() ==> is_first_pass(#[trigger] done[i]),
    ensures
        same_but_for(
            replay(document, suffix_patch_effects(done, new, no_children(), parent, next)),
            document,
            nodes_handles(done),
            nodes_listeners(done),
        ),
    decreases done, 0nat,
{
    if done.len() > 0 {
        let rest = done.drop_first();
        let at = new.nodes.len() - done.len();
        assert forall|i: int| 0 <= i < rest.len() implies is_first_pass(#[trigger] rest[i]) by {
            assert(rest[i] == done[i + 1]);
        }
        lemma_building_touches_only_the_trees(document, rest, new, parent, next);
        let first = replay(document, suffix_patch_effects(rest, new, no_children(), parent, next));
        assert(lookup_node(no_children(), new.keys[at]) is None);
        lemma_building_touches_only_the_tree(first, done.first(), new.nodes[at], parent, first_node(rest, next));
        lemma_replay_concat(
            document,
            suffix_patch_effects(rest, new, no_children(), parent, next),
            patch_effects(done.first(), new.nodes[at], None, parent, first_node(rest, next)),
        );
        lemma_handles_of_first_and_rest(done);
    }
}

/// A tree that is built where nothing was before and then torn down leaves
/// the document as it was: no node of the tree stays attached and no
/// listener of the tree stays bound, provided the document did not know the
/// handles of the tree before.
pub proof fn law_building_and_removing_leaves_nothing(
    document: Document,
    out: Tree,
    new: Tree,
    parent: Handle,
    next: Option<Handle>,
)
    requires
        is_first_pass(out),
        forall|node: Handle| node_handles(out).contains(node) ==> !document.parents.dom().contains(node),
        forall|listener: Handle| listener_handles(out).contains(listener) ==> !document.listeners.contains(listener),
    ensures
        replay(document, patch_effects(out, new, None, parent, next) + out.remove_effects(parent)) == document,
{
    let built = replay(document, patch_effects(out, new, None, parent, next));
    lemma_building_touches_only_the_tree(document, out, new, parent, next);
    lemma_removal_detaches_the_tree(built, out, parent);
    lemma_replay_concat(document, patch_effects(out, new, None, parent, next), out.remove_effects(parent));
    let last = replay(built, out.remove_effects(parent));
    assert(last.parents =~= document.parents);
    assert(last.listeners =~= document.listeners);
}

/// One of the effects hands out the handle.
pub open spec fn introduces(effects: Seq<EffectModel>, handle: Handle) -> bool {
    exists|k: int| 0 <= k < effects.len() && introduced(#[trigger] effects[k]) == Some(handle)
}

/// What a part of a record hands out, the whole record hands out.
pub proof fn lemma_introduces_within(
    before: Seq<EffectModel>,
    effects: Seq<EffectModel>,
    after: Seq<EffectModel>,
    handle: Handle,
)
    requires
        introduces(effects, handle),
    ensures
        introduces(before + effects + after, handle),
{
    let k = choose|k: int| 0 <= k < effects.len() && introduced(#[trigger] effects[k]) == Some(handle);
    assert((before + effects + after)[before.len() + k] == effects[k]);
}

/// Attaching bindings hands out their listeners.
pub proof fn lemma_attach_introduces(events: Seq<ListenerModel>, node: Handle, n: int, listener: Handle)
    requires
        0 <= n <= events.len(),
        bound_listeners(events, n).contains(listener),
    ensures
        introduces(attach_effects(events, node, n), listener),
    decreases n,
{
    if n > 0 {
        let effects = attach_effects(events, node, n);
        if events[n - 1].handle->0 == listener {
            assert(introduced(effects[effects.len() - 1]) == Some(listener));
        } else {
            lemma_attach_introduces(events, node, n - 1, listener);
            lemma_introduces_within(
                Seq::empty(),
                attach_effects(events, node, n - 1),
                seq![effects.last()],
                listener,
            );
            assert(Seq::<EffectModel>::empty() + attach_effects(events, node, n - 1) + seq![effects.last()]
                =~= effects);
        }
    }
}

/// Every node and every listener of a tree that was built where nothing was
/// before was handed out while it was built.
pub proof fn lemma_building_introduces_the_tree(
    out: Tree,
    new: Tree,
    parent: Handle,
    next: Option<Handle>,
    depth: nat,
    handle: Handle,
)
    requires
        is_first_pass(out),
        is_patch_of(out, new, None, depth),
        node_handles(out).contains(handle) || listener_handles(out).contains(handle),
    ensures
        introduces(patch_effects(out, new, None, parent, next), handle),
    decreases out, 1nat,
{
    let effects = patch_effects(out, new, None, parent, next);
    assert(none_effects() + effects =~= effects);
    match (out, new) {
        (Tree::Text(text), Tree::Text(_)) => {
            assert(introduced(effects[0]) == Some(handle));
        },
        (Tree::Element(element), Tree::Element(fresh)) => {
            let node = element.handle->0;
            let create = seq![EffectModel::CreateElement { node, tag: element.tag }];
            let class = class_effects(None, element.class, node);
            let attrs = attrs_effects(None, element.attrs, node);
            let below = child_patch_effects(element.child, fresh.child, None, node);
            let events = events_effects(None, element.events, node);
            let place = placed(parent, node, next);
            assert(effects == create + class + attrs + below + events + place);
            assert(crate::patching::element_is_patch_of(element, fresh, None, depth));
            assert(crate::patching::child_is_patch_of(element.child, fresh.child, None, depth));
            if handle == node {
                assert(introduced(effects[0]) == Some(handle));
            } else if bound_listeners(element.events, element.events.len() as int).contains(handle) {
                lemma_attach_introduces(element.events, node, element.events.len() as int, handle);
                assert(none_effects() + attach_effects(element.events, node, element.events.len() as int)
                    =~= events);
                lemma_introduces_within(create + class + attrs + below, events, place, handle);
            } else {
                match (element.child, fresh.child) {
                    (Some(child), Some(fresh_child)) => {
                        lemma_building_introduces_the_tree(*child, *fresh_child, node, None, depth, handle);
                        lemma_introduces_within(create + class + attrs, below, events + place, handle);
                        assert(create + class + attrs + below + (events + place) =~= effects);
                    },
                    _ => {},
                }
            }
        },
        (Tree::List(list), Tree::List(fresh)) => {
            assert(crate::patching::list_is_patch_of(list, fresh, None, depth));
            lemma_building_introduces_the_trees(list.nodes, fresh, parent, next, depth, handle);
        },
        (Tree::Component(component), Tree::Component(fresh)) => {
            match (component.rendered, component.source) {
                (Some(rendered), Some(source)) => {
                    assert(crate::patching::component_is_patch_of(component, fresh, None, depth));
                    assert(crate::patching::component_is_render_of(component, fresh, depth));
                    assert(component_is_pass_of(component, fresh, true, depth) || component_is_pass_of(
                        component,
                        fresh,
                        false,
                        depth,
                    ));
                    assert(fresh.rendered is None);
                    let created = match fresh.instance {
                        Some(_) => none_effects(),
                        None => seq![
                            EffectModel::Lifecycle {
                                component: component.instance->0,
                                hook: crate::target::Hook::Created,
                            },
                        ],
                    };
                    let below = patch_effects(*rendered, *source, None, parent, next);
                    let mounted = seq![
                        EffectModel::Lifecycle {
                            component: component.instance->0,
                            hook: crate::target::Hook::Mounted,
                        },
                    ];
                    assert(component_render_effects(component, fresh, parent, next) == created + below + mounted);
                    lemma_building_introduces_the_tree(
                        *rendered,
                        *source,
                        parent,
                        next,
                        (depth - 1) as nat,
                        handle,
                    );
                    lemma_introduces_within(created, below, mounted, handle);
                },
                _ => {},
            }
        },
        _ => {},
    }
}

/// Every node and every listener of trees that were built where nothing was
/// before, last to first, was handed out while they were built. The trees
/// are the last children of the list.
pub proof fn lemma_building_introduces_the_trees(
    done: Seq<Tree>,
    new: ListModel,
    parent: Handle,
    next: Option<Handle>,
    depth: nat,
    handle: Handle,
)
    requires
        done.len() <= new.nodes.len(),
        forall|i: int| 0 <= i < done.len() ==> is_first_pass(#[trigger] done[i]),
        forall|i: int|
            0 <= i < done.len() ==> is_patch_of(
                #[trigger] done[i],
                new.nodes[new.nodes.len() - done.len() + i],
                None,
                depth,
            ),
        nodes_handles(done).contains(handle) || nodes_listeners(done).contains(handle),
    ensures
        introduces(suffix_patch_effects(done, new, no_children(), parent, next), handle),
    decreases done, 0nat,
{
    if done.len() > 0 {
        let rest = done.drop_first();
        let at = new.nodes.len() - done.len();
        let before = suffix_patch_effects(rest, new, no_children(), parent, next);
        assert(lookup_node(no_children(), new.keys[at]) is None);
        let first = patch_effects(done.first(), new.nodes[at], None, parent, first_node(rest, next));
        lemma_handles_of_first_and_rest(done);
        if node_handles(done.first()).contains(handle) || listener_handles(done.first()).contains(handle) {
            lemma_building_introduces_the_tree(
                done.first(),
                new.nodes[at],
                parent,
                first_node(rest, next),
                depth,
                handle,
            );
            lemma_introduces_within(before, first, Seq::empty(), handle);
            assert(before + first + Seq::<EffectModel>::empty() =~= before + first);
        } else {
            assert forall|i: int| 0 <= i < rest.len() implies is_first_pass(#[trigger] rest[i]) by {
                assert(rest[i] == done[i + 1]);
            }
            assert forall|i: int| 0 <= i < rest.len() implies is_patch_of(
                #[trigger] rest[i],
                new.nodes[new.nodes.len() - rest.len() + i],
                None,
                depth,
            ) by {
                assert(rest[i] == done[i + 1]);
            }
            lemma_building_introduces_the_trees(rest, new, parent, next, depth, handle);
            lemma_introduces_within(Seq::empty(), before, first, handle);
            assert(Seq::<EffectModel>::empty() + before + first =~= before + first);
        }
    }
}

/// Every handle that the document knows was handed out before the record
/// was `base` effects long.
pub open spec fn is_older_than(document: Document, base: nat) -> bool {
    &&& forall|node: Handle| #[trigger] document.parents.dom().contains(node) ==> node < base
    &&& forall|listener: Handle| #[trigger] document.listeners.contains(listener) ==> listener < base
}

/// Rendering a tree where nothing was before and removing it again leaves
/// the document as it was, whatever was recorded before: with handles
/// numbered by their place in the record, the tree shares no node and no
/// listener with what the document knew.
pub proof fn law_rendering_and_removing_leaves_nothing(
    document: Document,
    record: Seq<EffectModel>,
    out: Tree,
    new: Tree,
    parent: Handle,
    next: Option<Handle>,
    depth: nat,
)
    requires
        is_older_than(document, record.len()),
        numbered(record + patch_effects(out, new, None, parent, next)),
        is_patch_of(out, new, None, depth),
        is_first_pass(out),
    ensures
        replay(document, patch_effects(out, new, None, parent, next) + out.remove_effects(parent)) == document,
{
    let effects = patch_effects(out, new, None, parent, next);
    assert forall|handle: Handle|
        node_handles(out).contains(handle) || listener_handles(out).contains(handle) implies handle
        >= record.len() by {
        lemma_building_introduces_the_tree(out, new, parent, next, depth, handle);
        let k = choose|k: int| 0 <= k < effects.len() && introduced(#[trigger] effects[k]) == Some(handle);
        assert((record + effects)[record.len() + k] == effects[k]);
    }
    law_building_and_removing_leaves_nothing(document, out, new, parent, next);
}

/// A tree in which no component has rendered, rendered where nothing was
/// before and removed again, leaves the document as it was, as long as its
/// components return trees in which no component has rendered either.
pub proof fn law_round_trip_of_an_unrendered_tree(
    document: Document,
    record: Seq<EffectModel>,
    out: Tree,
    new: Tree,
    parent: Handle,
    next: Option<Handle>,
    depth: nat,
)
    requires
        is_older_than(document, record.len()),
        numbered(record + patch_effects(out, new, None, parent, next)),
        is_patch_of(out, new, None, depth),
        is_unrendered(new),
        renders_unrendered(out),
    ensures
        replay(document, patch_effects(out, new, None, parent, next) + out.remove_effects(parent)) == document,
{
    lemma_patch_against_nothing_is_first_pass(out, new, depth);
    law_rendering_and_removing_leaves_nothing(document, record, out, new, parent, next, depth);
}

/// After a list was patched against an old list, nothing of the old
/// children whose keys are gone is left in the document: none of their nodes
/// is attached any more and none of their listeners is bound.
pub proof fn law_stale_children_leave_the_document(
    document: Document,
    out: ListModel,
    new: ListModel,
    old: ListModel,
    parent: Handle,
    next: Option<Handle>,
)
    ensures
        ({
            let last = replay(document, list_patch_effects(out, new, Some(old), parent, next));
            let stale = remaining(old, out.keys, 0).nodes;
            &&& forall|node: Handle| nodes_handles(stale).contains(node) ==> !last.parents.dom().contains(node)
            &&& forall|listener: Handle|
                nodes_listeners(stale).contains(listener) ==> !last.listeners.contains(listener)
        }),
{
    let stale = remaining(old, out.keys, 0).nodes;
    let removal = list_remove_effects(stale, parent);
    let before = suffix_patch_effects(out.nodes, new, old, parent, next) + (if dirty_order(old.keys, out.keys) {
        reorder_effects(out, old.keys, parent, 0)
    } else {
        none_effects()
    });
    assert(list_patch_effects(out, new, Some(old), parent, next) == before + removal);
    lemma_replay_concat(document, before, removal);
    lemma_list_removal_detaches_the_trees(replay(document, before), stale, parent);
}

/// The listeners that the effects detach, in the order in which they do.
pub open spec fn detachments(effects: Seq<EffectModel>) -> Seq<Handle>
    decreases effects.len(),
{
    if effects.len() == 0 {
        Seq::empty()
    } else {
        match effects.last() {
            EffectModel::RemoveEventListener { listener } => detachments(effects.drop_last()).push(listener),
            _ => detachments(effects.drop_last()),
        }
    }
}

/// The listeners of the bindings `events[..n]`, first to last.
pub open spec fn listeners_in_order(events: Seq<ListenerModel>, n: int) -> Seq<Handle>
    decreases n,
{
    if n <= 0 {
        Seq::empty()
    } else {
        listeners_in_order(events, n - 1).push(events[n - 1].handle->0)
    }
}

/// The listener of every binding of the tree, each binding once, in the
/// order in which the tree is torn down: an element's own before those
/// below it.
pub open spec fn bindings(tree: Tree) -> Seq<Handle>
    decreases tree,
{
    match tree {
        Tree::Text(_) => Seq::empty(),
        Tree::Element(element) => listeners_in_order(element.events, element.events.len() as int) + match element.child {
            Some(child) => bindings(*child),
            None => Seq::empty(),
        },
        Tree::List(list) => nodes_bindings(list.nodes),
        Tree::Component(component) => match component.rendered {
            Some(rendered) => bindings(*rendered),
            None => Seq::empty(),
        },
    }
}

/// The listener of every binding of the trees, first tree to last.
pub open spec fn nodes_bindings(nodes: Seq<Tree>) -> Seq<Handle>
    decreases nodes,
{
    if nodes.len() == 0 {
        Seq::empty()
    } else {
        nodes_bindings(nodes.drop_last()) + bindings(nodes.last())
    }
}

/// What two records detach one after the other, they detach together.
pub proof fn lemma_detachments_concat(first: Seq<EffectModel>, second: Seq<EffectModel>)
    ensures
        detachments(first + second) == detachments(first) + detachments(second),
    decreases second.len(),
{
    if second.len() == 0 {
        assert(first + second =~= first);
        assert(detachments(first) + detachments(second) =~= detachments(first));
    } else {
        lemma_detachments_concat(first, second.drop_last());
        assert((first + second).drop_last() =~= first + second.drop_last());
        assert((first + second).last() == second.last());
        assert(detachments(first + second) =~= detachments(first) + detachments(second));
    }
}

/// An effect that is no detachment detaches nothing.
pub proof fn lemma_other_effect_detaches_nothing(effect: EffectModel)
    requires
        !(effect is RemoveEventListener),
    ensures
        detachments(seq![effect]) == Seq::<Handle>::empty(),
{
    let one = seq![effect];
    assert(one.drop_last() =~= Seq::<EffectModel>::empty());
    assert(detachments(Seq::<EffectModel>::empty()) =~= Seq::<Handle>::empty());
    assert(one.last() == effect);
}

/// Detaching bindings detaches the listener of each, once.
pub proof fn lemma_detach_detaches_each_once(events: Seq<ListenerModel>, n: int)
    ensures
        detachments(detach_effects(events, n)) == listeners_in_order(events, n),
    decreases n,
{
    if n > 0 {
        lemma_detach_detaches_each_once(events, n - 1);
        assert(detach_effects(events, n).drop_last() =~= detach_effects(events, n - 1));
    }
}

/// Tearing a tree down detaches the listener of every binding of the tree
/// exactly once: the record of the teardown holds one detachment for each
/// binding, in the order of the bindings, and no other.
pub proof fn law_teardown_detaches_each_binding_once(tree: Tree, parent: Handle)
    ensures
        detachments(tree.remove_effects(parent)) == bindings(tree),
    decreases tree, 1nat,
{
    match tree {
        Tree::Text(text) => {
            lemma_other_effect_detaches_nothing(EffectModel::RemoveChild { parent, node: text.handle->0 });
        },
        Tree::Element(element) => {
            let node = element.handle->0;
            let detached = detach_effects(element.events, element.events.len() as int);
            let below = match element.child {
                Some(child) => child.remove_effects(node),
                None => none_effects(),
            };
            let leave = seq![EffectModel::RemoveChild { parent, node }];
            lemma_detach_detaches_each_once(element.events, element.events.len() as int);
            match element.child {
                Some(child) => {
                    law_teardown_detaches_each_binding_once(*child, node);
                },
                None => {},
            }
            lemma_detachments_concat(detached, below);
            lemma_detachments_concat(detached + below, leave);
            lemma_other_effect_detaches_nothing(EffectModel::RemoveChild { parent, node });
            assert(detachments(tree.remove_effects(parent)) =~= bindings(tree));
        },
        Tree::List(list) => {
            lemma_teardown_detaches_each_binding_of_the_trees_once(list.nodes, parent);
        },
        Tree::Component(component) => {
            let below = match component.rendered {
                Some(rendered) => rendered.remove_effects(parent),
                None => none_effects(),
            };
            let destroyed = match component.instance {
                Some(id) => seq![EffectModel::Lifecycle { component: id, hook: crate::target::Hook::Destroyed }],
                None => none_effects(),
            };
            match component.rendered {
                Some(rendered) => {
                    law_teardown_detaches_each_binding_once(*rendered, parent);
                },
                None => {},
            }
            lemma_detachments_concat(below, destroyed);
            match component.instance {
                Some(id) => {
                    lemma_other_effect_detaches_nothing(
                        EffectModel::Lifecycle { component: id, hook: crate::target::Hook::Destroyed },
                    );
                },
                None => {},
            }
            assert(detachments(destroyed) =~= Seq::<Handle>::empty());
            assert(detachments(tree.remove_effects(parent)) =~= bindings(tree));
        },
    }
}

/// Tearing trees down detaches the listener of every binding of the trees
/// exactly once.
pub proof fn lemma_teardown_detaches_each_binding_of_the_trees_once(nodes: Seq<Tree>, parent: Handle)
    ensures
        detachments(list_remove_effects(nodes, parent)) == nodes_bindings(nodes),
    decreases nodes, 0nat,
{
    if nodes.len() > 0 {
        lemma_teardown_detaches_each_binding_of_the_trees_once(nodes.drop_last(), parent);
        law_teardown_detaches_each_binding_once(nodes.last(), parent);
        lemma_detachments_concat(
            list_remove_effects(nodes.drop_last(), parent),
            nodes.last().remove_effects(parent),
        );
    }
}

/// An element lets go of every listener in its subtree before it leaves its
/// parent: the last effect of its teardown takes its node out of the parent,
/// and every detachment stands before that.
pub proof fn law_listeners_are_detached_before_the_element_leaves(element: ElementModel, parent: Handle)
    ensures
        ({
            let effects = Tree::Element(element).remove_effects(parent);
            &&& effects.len() > 0
            &&& effects.last() == (EffectModel::RemoveChild { parent, node: element.handle->0 })
            &&& detachments(effects.drop_last()) == bindings(Tree::Element(element))
        }),
{
    let effects = Tree::Element(element).remove_effects(parent);
    law_teardown_detaches_each_binding_once(Tree::Element(element), parent);
    assert(detachments(effects) == detachments(effects.drop_last()));
}

/// The teardown of trees is the teardown of those before one of them, of
/// that one, and of those after it.
pub proof fn lemma_teardown_of_one_among_many(nodes: Seq<Tree>, parent: Handle, m: int)
    requires
        0 <= m < nodes.len(),
    ensures
        list_remove_effects(nodes, parent) == list_remove_effects(nodes.take(m), parent) + nodes[m].remove_effects(
            parent,
        ) + list_remove_effects(nodes.skip(m + 1), parent),
    decreases nodes.len(),
{
    let front = nodes.drop_last();
    if m == nodes.len() - 1 {
        assert(nodes.take(m) =~= front);
        assert(nodes.skip(m + 1) =~= Seq::<Tree>::empty());
        assert(list_remove_effects(nodes, parent) =~= list_remove_effects(nodes.take(m), parent)
            + nodes[m].remove_effects(parent) + list_remove_effects(nodes.skip(m + 1), parent));
    } else {
        lemma_teardown_of_one_among_many(front, parent, m);
        assert(front.take(m) =~= nodes.take(m));
        assert(front[m] == nodes[m]);
        let rest = nodes.skip(m + 1);
        assert(rest.drop_last() =~= front.skip(m + 1));
        assert(rest.last() == nodes.last());
        assert(list_remove_effects(nodes, parent) =~= list_remove_effects(nodes.take(m), parent)
            + nodes[m].remove_effects(parent) + list_remove_effects(nodes.skip(m + 1), parent));
    }
}

/// The nodes and listeners of one of the trees are among those of all.
pub proof fn lemma_handles_of_one_among_many(nodes: Seq<Tree>, m: int)
    requires
        0 <= m < nodes.len(),
    ensures
        node_handles(nodes[m]).subset_of(nodes_handles(nodes)),
        listener_handles(nodes[m]).subset_of(nodes_listeners(nodes)),
    decreases nodes.len(),
{
    if m < nodes.len() - 1 {
        lemma_handles_of_one_among_many(nodes.drop_last(), m);
    }
}

/// The piece stands in the record, whole and in one piece.
pub open spec fn stands_in(record: Seq<EffectModel>, piece: Seq<EffectModel>) -> bool {
    exists|at: int|
        0 <= at <= record.len() - piece.len() && #[trigger] record.subrange(at, at + piece.len()) == piece
}

/// An old child whose key is gone is torn down once when the list is
/// patched: its teardown stands in the record of the patch, whole and in one
/// piece; that piece detaches the listener of each of its bindings exactly
/// once; and when the record is replayed none of its nodes is attached any
/// more and none of its listeners is bound.
pub proof fn law_stale_child_is_torn_down_once(
    document: Document,
    out: ListModel,
    new: ListModel,
    old: ListModel,
    parent: Handle,
    next: Option<Handle>,
    k: int,
)
    requires
        old.keys.len() == old.nodes.len(),
        old.keys.no_duplicates(),
        0 <= k < old.nodes.len(),
        !out.keys.contains(old.keys[k]),
    ensures
        stands_in(list_patch_effects(out, new, Some(old), parent, next), old.nodes[k].remove_effects(parent)),
        detachments(old.nodes[k].remove_effects(parent)) == bindings(old.nodes[k]),
        ({
            let last = replay(document, list_patch_effects(out, new, Some(old), parent, next));
            &&& forall|node: Handle| node_handles(old.nodes[k]).contains(node) ==> !last.parents.dom().contains(node)
            &&& forall|listener: Handle|
                listener_handles(old.nodes[k]).contains(listener) ==> !last.listeners.contains(listener)
        }),
{
    let stale = remaining(old, out.keys, 0);
    let key = old.keys[k];
    crate::laws::law_stale_children_are_removed_once(old, out.keys);
    crate::ordered::lemma_find_unique(old.keys, key, k);
    assert(lookup_node(stale, key) == Some(old.nodes[k]));
    let m = crate::ordered::find(stale.keys, key)->0;
    assert(stale.nodes[m] == old.nodes[k]);
    lemma_teardown_of_one_among_many(stale.nodes, parent, m);
    let patched = suffix_patch_effects(out.nodes, new, old, parent, next) + (if dirty_order(old.keys, out.keys) {
        reorder_effects(out, old.keys, parent, 0)
    } else {
        none_effects()
    });
    let before = patched + list_remove_effects(stale.nodes.take(m), parent);
    let after = list_remove_effects(stale.nodes.skip(m + 1), parent);
    let record = list_patch_effects(out, new, Some(old), parent, next);
    let piece = old.nodes[k].remove_effects(parent);
    assert(record =~= before + piece + after);
    let at = before.len() as int;
    assert(record.subrange(at, at + piece.len()) =~= piece);
    law_teardown_detaches_each_binding_once(old.nodes[k], parent);
    law_stale_children_leave_the_document(document, out, new, old, parent, next);
    lemma_handles_of_one_among_many(stale.nodes, m);
}

} // verus!
