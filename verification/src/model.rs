//! The mathematical model of a node tree.
//!
//! A [`Tree`] holds what a node shows and what it is attached to, with strings
//! as sequences of characters and collections as sequences. Every contract of
//! the engine is stated over trees and over the effects that a pass records.

use crate::target::EffectModel;
use crate::target::Handle;
use crate::target::Hook;
use std::any::TypeId;
use vstd::prelude::*;

verus! {

/// The identity of a type, as `std::any::TypeId` gives it. Two identities are
/// equal exactly if they are of one type.
#[verifier::external_type_specification]
#[verifier::external_body]
pub struct ExTypeId(TypeId);

/// What the latest pass did with a component.
#[derive(Clone, Copy, Debug, PartialEq, Eq, Structural)]
pub enum Pass {
    /// No pass has reached the component yet.
    Pending,
    /// The component was due for rendering, but components were already
    /// nested as deep as the target allows: it was left as it was.
    Skipped,
    /// The component was rendered for the first time.
    Mounted,
    /// The component was rendered again because its state had changed.
    Updated,
    /// The component was left alone and the pass went on into what it had
    /// rendered before.
    Propagated,
}

/// A text node: what it says and the target's text node that shows it.
pub struct TextModel {
    pub content: Seq<char>,
    pub handle: Option<Handle>,
}

/// An event binding: the event's name, the callback that the document's owner
/// knows by number, the target's listener while attached, and whether the
/// binding was attached at some time.
pub struct ListenerModel {
    pub event_type: Seq<char>,
    pub callback: u64,
    pub handle: Option<Handle>,
    pub spent: bool,
}

/// An element.
pub struct ElementModel {
    pub tag: Seq<char>,
    pub class: Option<Seq<char>>,
    pub attrs: Option<Seq<(Seq<char>, Seq<char>)>>,
    pub child: Option<Box<Tree>>,
    pub self_closing: bool,
    pub events: Seq<ListenerModel>,
    pub handle: Option<Handle>,
}

/// A keyed list: `keys[i]` is the key of `nodes[i]`.
pub struct ListModel {
    pub keys: Seq<Seq<char>>,
    pub nodes: Seq<Tree>,
}

/// A component: its type, its instance once created, what the instance
/// returned when it last rendered, what became of that in the target, what
/// the latest pass did with the component, and what the component showed when
/// it was rendered without a target.
pub struct ComponentModel {
    pub kind: TypeId,
    pub instance: Option<Handle>,
    pub source: Option<Box<Tree>>,
    pub rendered: Option<Box<Tree>>,
    pub pass: Pass,
    pub served: Option<Box<Tree>>,
}

/// What a node is: a text, an element, a keyed list or a component.
pub enum Tree {
    Text(TextModel),
    Element(ElementModel),
    List(ListModel),
    Component(ComponentModel),
}

/// The effects of an optional step: none where there is nothing to do.
pub open spec fn none_effects() -> Seq<EffectModel> {
    Seq::empty()
}

impl TextModel {
    /// The markup of the text: the text itself.
    pub open spec fn html(self) -> Seq<char> {
        self.content
    }

    /// The text has its node in the target.
    pub open spec fn is_attached(self) -> bool {
        self.handle is Some
    }

    /// The target's node that stands for the text.
    pub open spec fn dom_node(self) -> Option<Handle> {
        self.handle
    }

    /// Taking the text out of `parent`.
    pub open spec fn remove_effects(self, parent: Handle) -> Seq<EffectModel> {
        seq![EffectModel::RemoveChild { parent, node: self.handle->0 }]
    }

    /// Moving the text to the end of `parent`.
    pub open spec fn move_to_last_effects(self, parent: Handle) -> Seq<EffectModel> {
        seq![EffectModel::AppendChild { parent, node: self.handle->0 }]
    }

    /// Moving the text before `next` under `parent`.
    pub open spec fn move_before_effects(self, parent: Handle, next: Handle) -> Seq<EffectModel> {
        seq![EffectModel::InsertBefore { parent, node: self.handle->0, sibling: next }]
    }

    /// Bringing the target from `previous` to `self`, the text that came out
    /// of the patch: an existing text node is kept and rewritten only where
    /// the content differs; without one a text node is created and placed.
    pub open spec fn patch_effects(self, previous: Option<TextModel>, parent: Handle, next: Option<Handle>) -> Seq<
        EffectModel,
    > {
        match previous {
            Some(old) => if old.content != self.content {
                seq![EffectModel::SetText { node: self.handle->0, content: self.content }]
            } else {
                none_effects()
            },
            None => seq![EffectModel::CreateText { node: self.handle->0, content: self.content }]
                + crate::target::placed(parent, self.handle->0, next),
        }
    }

    /// `self` is what patching `new` against `previous` gives: the content of
    /// `new` on the text node of `previous`, or on one of its own.
    pub open spec fn is_patch_of(self, new: TextModel, previous: Option<TextModel>) -> bool {
        &&& self.content == new.content
        &&& self.handle is Some
        &&& previous is Some ==> self.handle == previous->0.handle
    }
}

/// The class attribute as it stands in an opening tag.
pub open spec fn class_html(class: Option<Seq<char>>) -> Seq<char> {
    match class {
        Some(value) => " class=\""@ + value + "\""@,
        None => Seq::empty(),
    }
}

/// The attributes as they stand in an opening tag, in their order.
pub open spec fn attrs_html(attrs: Seq<(Seq<char>, Seq<char>)>) -> Seq<char>
    decreases attrs.len(),
{
    if attrs.len() == 0 {
        Seq::empty()
    } else {
        attrs_html(attrs.drop_last()) + " "@ + attrs.last().0 + "=\""@ + attrs.last().1 + "\""@
    }
}

/// The attributes as they stand in an opening tag, if there are any.
pub open spec fn optional_attrs_html(attrs: Option<Seq<(Seq<char>, Seq<char>)>>) -> Seq<char> {
    match attrs {
        Some(entries) => attrs_html(entries),
        None => Seq::empty(),
    }
}

/// Detaching the listeners `events[..n]`, first to last.
pub open spec fn detach_effects(events: Seq<ListenerModel>, n: int) -> Seq<EffectModel>
    decreases n,
{
    if n <= 0 {
        none_effects()
    } else {
        detach_effects(events, n - 1).push(
            EffectModel::RemoveEventListener { listener: events[n - 1].handle->0 },
        )
    }
}

/// Attaching the listeners `events[..n]` to `node`, first to last.
pub open spec fn attach_effects(events: Seq<ListenerModel>, node: Handle, n: int) -> Seq<EffectModel>
    decreases n,
{
    if n <= 0 {
        none_effects()
    } else {
        attach_effects(events, node, n - 1).push(
            EffectModel::AddEventListener {
                listener: events[n - 1].handle->0,
                node,
                event_type: events[n - 1].event_type,
                callback: events[n - 1].callback,
            },
        )
    }
}

/// Every binding has its listener in the target.
pub open spec fn all_attached(events: Seq<ListenerModel>) -> bool {
    forall|i: int| 0 <= i < events.len() ==> (#[trigger] events[i]).handle is Some
}

/// The binding can still be attached: it has no listener and never had one.
pub open spec fn is_fresh(binding: ListenerModel) -> bool {
    binding.handle is None && !binding.spent
}

/// Every binding can still be attached.
pub open spec fn all_fresh(events: Seq<ListenerModel>) -> bool {
    forall|i: int| 0 <= i < events.len() ==> is_fresh(#[trigger] events[i])
}

/// The binding as it was described: never attached.
pub open spec fn renewed(binding: ListenerModel) -> ListenerModel {
    ListenerModel { handle: None, spent: false, ..binding }
}

/// The bindings as they were described: none ever attached.
pub open spec fn all_renewed(events: Seq<ListenerModel>) -> Seq<ListenerModel> {
    Seq::new(events.len(), |i: int| renewed(events[i]))
}

/// Unsetting the attributes `attrs[..n]`, first to last.
pub open spec fn unset_effects(attrs: Seq<(Seq<char>, Seq<char>)>, node: Handle, n: int) -> Seq<EffectModel>
    decreases n,
{
    if n <= 0 {
        none_effects()
    } else {
        unset_effects(attrs, node, n - 1).push(EffectModel::RemoveAttribute { node, key: attrs[n - 1].0 })
    }
}

impl Tree {
    /// The markup that the tree stands for.
    pub open spec fn html(self) -> Seq<char>
        decreases self,
    {
        match self {
            Tree::Text(text) => text.html(),
            Tree::Element(element) => "<"@ + element.tag + class_html(element.class)
                + optional_attrs_html(element.attrs) + ">"@ + if element.self_closing {
                Seq::<char>::empty()
            } else {
                (match element.child {
                    Some(child) => child.html(),
                    None => Seq::<char>::empty(),
                }) + "</"@ + element.tag + ">"@
            },
            Tree::List(list) => list_html(list.nodes),
            Tree::Component(component) => match component.rendered {
                Some(rendered) => rendered.html(),
                None => match component.served {
                    Some(served) => served.html(),
                    None => Seq::<char>::empty(),
                },
            },
        }
    }

    /// Every text and element of the tree has its node in the target, every
    /// event binding its listener, and every component went through a pass:
    /// it has rendered and has its instance, or the pass left it out.
    pub open spec fn is_attached(self) -> bool
        decreases self,
    {
        match self {
            Tree::Text(text) => text.is_attached(),
            Tree::Element(element) => {
                &&& element.handle is Some
                &&& all_attached(element.events)
                &&& match element.child {
                    Some(child) => child.is_attached(),
                    None => true,
                }
            },
            Tree::List(list) => {
                &&& list.keys.len() == list.nodes.len()
                &&& list.keys.no_duplicates()
                &&& forall|i: int| 0 <= i < list.nodes.len() ==> (#[trigger] list.nodes[i]).is_attached()
            },
            Tree::Component(component) => match component.rendered {
                Some(rendered) => component.instance is Some && rendered.is_attached(),
                None => component.pass == Pass::Skipped,
            },
        }
    }

    /// The target's node that stands first for the tree, if it has one.
    pub open spec fn dom_node(self) -> Option<Handle>
        decreases self,
    {
        match self {
            Tree::Text(text) => text.handle,
            Tree::Element(element) => element.handle,
            Tree::List(list) => if list.nodes.len() > 0 {
                list.nodes[0].dom_node()
            } else {
                None
            },
            Tree::Component(component) => match component.rendered {
                Some(rendered) => rendered.dom_node(),
                None => None,
            },
        }
    }

    /// Tearing the tree down under `parent`: an element lets go of its
    /// listeners, then of its child, then leaves; a list goes child by child;
    /// a component takes down what it rendered and is then destroyed.
    pub open spec fn remove_effects(self, parent: Handle) -> Seq<EffectModel>
        decreases self,
    {
        match self {
            Tree::Text(text) => text.remove_effects(parent),
            Tree::Element(element) => detach_effects(element.events, element.events.len() as int) + (match element.child {
                Some(child) => child.remove_effects(element.handle->0),
                None => none_effects(),
            }) + seq![EffectModel::RemoveChild { parent, node: element.handle->0 }],
            Tree::List(list) => list_remove_effects(list.nodes, parent),
            Tree::Component(component) => (match component.rendered {
                Some(rendered) => rendered.remove_effects(parent),
                None => none_effects(),
            }) + (match component.instance {
                Some(id) => seq![EffectModel::Lifecycle { component: id, hook: Hook::Destroyed }],
                None => none_effects(),
            }),
        }
    }

    /// Moving the tree's nodes to the end of `parent`.
    pub open spec fn move_to_last_effects(self, parent: Handle) -> Seq<EffectModel>
        decreases self,
    {
        match self {
            Tree::Text(text) => text.move_to_last_effects(parent),
            Tree::Element(element) => seq![EffectModel::AppendChild { parent, node: element.handle->0 }],
            Tree::List(list) => list_move_to_last_effects(list.nodes, parent),
            Tree::Component(component) => match component.rendered {
                Some(rendered) => rendered.move_to_last_effects(parent),
                None => none_effects(),
            },
        }
    }

    /// Moving the tree's nodes before `next` under `parent`.
    pub open spec fn move_before_effects(self, parent: Handle, next: Handle) -> Seq<EffectModel>
        decreases self,
    {
        match self {
            Tree::Text(text) => text.move_before_effects(parent, next),
            Tree::Element(element) => seq![
                EffectModel::InsertBefore { parent, node: element.handle->0, sibling: next },
            ],
            Tree::List(list) => list_move_before_effects(list.nodes, parent, next),
            Tree::Component(component) => match component.rendered {
                Some(rendered) => rendered.move_before_effects(parent, next),
                None => none_effects(),
            },
        }
    }
}

/// Every event binding of the tree that a patch would attach can still be
/// attached: the tree is as it was described. What the components of the
/// tree have rendered is not looked at: a patch passes over it.
pub open spec fn is_unbound(tree: Tree) -> bool
    decreases tree,
{
    match tree {
        Tree::Text(_) => true,
        Tree::Element(element) => all_fresh(element.events) && match element.child {
            Some(child) => is_unbound(*child),
            None => true,
        },
        Tree::List(list) => forall|i: int| 0 <= i < list.nodes.len() ==> is_unbound(#[trigger] list.nodes[i]),
        Tree::Component(_) => true,
    }
}

/// The tree with its event bindings as they were described: none of those
/// that a patch would attach was ever attached.
pub open spec fn unbound(tree: Tree) -> Tree
    decreases tree,
{
    match tree {
        Tree::Text(_) => tree,
        Tree::Element(element) => Tree::Element(
            ElementModel {
                events: all_renewed(element.events),
                child: match element.child {
                    Some(child) => Some(Box::new(unbound(*child))),
                    None => None,
                },
                ..element
            },
        ),
        Tree::List(list) => Tree::List(ListModel { nodes: all_unbound(list.nodes), ..list }),
        Tree::Component(_) => tree,
    }
}

/// The trees with their event bindings as they were described.
pub open spec fn all_unbound(nodes: Seq<Tree>) -> Seq<Tree>
    decreases nodes,
{
    if nodes.len() == 0 {
        Seq::empty()
    } else {
        all_unbound(nodes.drop_last()).push(unbound(nodes.last()))
    }
}

/// The trees as they were described are as many as the trees, each as it
/// was described.
pub proof fn lemma_all_unbound(nodes: Seq<Tree>)
    ensures
        all_unbound(nodes).len() == nodes.len(),
        forall|i: int| 0 <= i < nodes.len() ==> (#[trigger] all_unbound(nodes)[i]) == unbound(nodes[i]),
    decreases nodes.len(),
{
    if nodes.len() > 0 {
        lemma_all_unbound(nodes.drop_last());
    }
}

/// A tree as it was described is unbound, and an unbound tree is as it was
/// described.
pub proof fn lemma_unbound(tree: Tree)
    ensures
        is_unbound(unbound(tree)),
        is_unbound(tree) ==> unbound(tree) == tree,
    decreases tree,
{
    match tree {
        Tree::Element(element) => {
            match element.child {
                Some(child) => {
                    lemma_unbound(*child);
                },
                None => {},
            }
            if is_unbound(tree) {
                assert(all_renewed(element.events) =~= element.events);
            }
        },
        Tree::List(list) => {
            lemma_all_unbound(list.nodes);
            assert forall|i: int| 0 <= i < list.nodes.len() implies is_unbound(
                #[trigger] all_unbound(list.nodes)[i],
            ) by {
                lemma_unbound(list.nodes[i]);
            }
            if is_unbound(tree) {
                assert forall|i: int| 0 <= i < list.nodes.len() implies all_unbound(list.nodes)[i]
                    == list.nodes[i] by {
                    lemma_unbound(list.nodes[i]);
                }
                assert(all_unbound(list.nodes) =~= list.nodes);
            }
        },
        _ => {},
    }
}

/// The markup of the nodes, one after the other.
pub open spec fn list_html(nodes: Seq<Tree>) -> Seq<char>
    decreases nodes,
{
    if nodes.len() == 0 {
        Seq::empty()
    } else {
        list_html(nodes.drop_last()) + nodes.last().html()
    }
}

/// Tearing the nodes down, first to last.
pub open spec fn list_remove_effects(nodes: Seq<Tree>, parent: Handle) -> Seq<EffectModel>
    decreases nodes,
{
    if nodes.len() == 0 {
        none_effects()
    } else {
        list_remove_effects(nodes.drop_last(), parent) + nodes.last().remove_effects(parent)
    }
}

/// Moving the trees to the end of `parent`, first to last.
pub open spec fn list_move_to_last_effects(nodes: Seq<Tree>, parent: Handle) -> Seq<EffectModel>
    decreases nodes,
{
    if nodes.len() == 0 {
        none_effects()
    } else {
        list_move_to_last_effects(nodes.drop_last(), parent) + nodes.last().move_to_last_effects(parent)
    }
}

/// Moving the trees before `next` under `parent`, first to last.
pub open spec fn list_move_before_effects(nodes: Seq<Tree>, parent: Handle, next: Handle) -> Seq<EffectModel>
    decreases nodes,
{
    if nodes.len() == 0 {
        none_effects()
    } else {
        list_move_before_effects(nodes.drop_last(), parent, next) + nodes.last().move_before_effects(
            parent,
            next,
        )
    }
}

/// Tearing down what was there before, if anything was.
pub open spec fn removal_effects(previous: Option<Tree>, parent: Handle) -> Seq<EffectModel> {
    match previous {
        Some(tree) => tree.remove_effects(parent),
        None => none_effects(),
    }
}

/// The number of nodes in the tree, what components rendered included.
pub open spec fn size(tree: Tree) -> nat
    decreases tree,
{
    match tree {
        Tree::Text(_) => 1,
        Tree::Element(element) => 1 + match element.child {
            Some(child) => size(*child),
            None => 0,
        },
        Tree::List(list) => 1 + nodes_size(list.nodes),
        Tree::Component(component) => 1 + (match component.rendered {
            Some(rendered) => size(*rendered),
            None => 0,
        }) + (match component.served {
            Some(served) => size(*served),
            None => 0,
        }),
    }
}

/// The number of nodes in the trees.
pub open spec fn nodes_size(nodes: Seq<Tree>) -> nat
    decreases nodes,
{
    if nodes.len() == 0 {
        0
    } else {
        nodes_size(nodes.drop_last()) + size(nodes.last())
    }
}

/// The size of a tree that may be absent.
pub open spec fn option_size(tree: Option<Tree>) -> nat {
    match tree {
        Some(tree) => size(tree),
        None => 0,
    }
}

/// Each of the trees is no larger than all of them together.
pub proof fn lemma_nodes_size(nodes: Seq<Tree>, i: int)
    requires
        0 <= i < nodes.len(),
    ensures
        size(nodes[i]) <= nodes_size(nodes),
    decreases nodes.len(),
{
    if i < nodes.len() - 1 {
        lemma_nodes_size(nodes.drop_last(), i);
    }
}

/// Two optional attribute sets are both absent or hold the same entries.
pub open spec fn same_attrs(
    a: Option<Seq<(Seq<char>, Seq<char>)>>,
    b: Option<Seq<(Seq<char>, Seq<char>)>>,
) -> bool {
    match (a, b) {
        (Some(x), Some(y)) => crate::attributes::same_entries(x, y),
        (None, None) => true,
        _ => false,
    }
}

/// Each of the children `x[..n]` has its like under its key in `y`.
pub open spec fn same_children(x: ListModel, y: ListModel, n: int) -> bool
    decreases x, n,
{
    if n <= 0 || n > x.nodes.len() {
        true
    } else {
        &&& same_children(x, y, n - 1)
        &&& match crate::patching::lookup_node(y, x.keys[n - 1]) {
            Some(theirs) => same(x.nodes[n - 1], theirs),
            None => false,
        }
    }
}

/// Two trees count as the same node. Texts and elements are compared part by
/// part; attributes and the children of a list are compared name by name and
/// key by key, whatever their order; event bindings not at all; components by their type and by what they rendered, with a target and
/// without.
pub open spec fn same(a: Tree, b: Tree) -> bool
    decreases a, 0nat,
{
    match (a, b) {
        (Tree::Text(x), Tree::Text(y)) => x == y,
        (Tree::Element(x), Tree::Element(y)) => {
            &&& x.tag == y.tag
            &&& x.class == y.class
            &&& same_attrs(x.attrs, y.attrs)
            &&& match (x.child, y.child) {
                (Some(mine), Some(theirs)) => same(*mine, *theirs),
                (None, None) => true,
                _ => false,
            }
            &&& x.self_closing == y.self_closing
            &&& x.handle == y.handle
        },
        (Tree::List(x), Tree::List(y)) => {
            &&& x.nodes.len() == y.nodes.len()
            &&& same_children(x, y, x.nodes.len() as int)
        },
        (Tree::Component(x), Tree::Component(y)) => {
            &&& x.kind == y.kind
            &&& match (x.rendered, y.rendered) {
                (Some(mine), Some(theirs)) => same(*mine, *theirs),
                (None, None) => true,
                _ => false,
            }
            &&& match (x.served, y.served) {
                (Some(mine), Some(theirs)) => same(*mine, *theirs),
                (None, None) => true,
                _ => false,
            }
        },
        _ => false,
    }
}

} // verus!
