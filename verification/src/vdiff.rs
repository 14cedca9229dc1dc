//! The protocol that every kind of node follows towards the target: it can
//! be patched against what was there before, removed, moved, and asked for
//! its node. Each kind says in its own terms when it can be patched or
//! removed and which effects that has.

use crate::attributes::Attributes;
use crate::attributes::ClassString;
use crate::events::Events;
use crate::model::all_attached;
use crate::model::detach_effects;
use crate::model::none_effects;
use crate::model::Tree;
use crate::patching::attrs_effects;
use crate::patching::class_effects;
use crate::patching::component_is_patch_of;
use crate::patching::component_is_render_of;
use crate::patching::component_patch_effects;
use crate::patching::component_render_effects;
use crate::patching::element_is_patch_of;
use crate::patching::element_patch_effects;
use crate::patching::events_attached_from;
use crate::patching::events_effects;
use crate::patching::is_patch_of;
use crate::patching::is_render_of;
use crate::patching::list_is_patch_of;
use crate::patching::list_patch_effects;
use crate::patching::patch_effects;
use crate::patching::render_effects;
use crate::target::EffectModel;
use crate::target::Handle;
use crate::target::numbered;
use crate::target::Target;
use crate::vcomponent::VComponent;
use crate::velement::VElement;
use crate::vlist::VList;
use crate::vnode::VNode;
use crate::vtext::VText;
use vstd::prelude::*;

verus! {

/// Brings the target up to date with a node, against what was there before.
pub trait DOMPatch<T>: Sized {
    /// The node is as it was described: what a patch would attach can be
    /// attached.
    spec fn is_described(&self) -> bool;

    /// What was there before can be patched against.
    spec fn accepts(previous: Option<T>) -> bool;

    /// `out` is what patching `new` against `previous` may hand back.
    spec fn is_patch(out: Self, new: Self, previous: Option<T>, depth: nat) -> bool;

    /// The effects of patching `new` against `previous`, which handed back
    /// `out`.
    spec fn patching(out: Self, new: Self, previous: Option<T>, parent: Handle, next: Option<Handle>) -> Seq<
        EffectModel,
    >;

    /// Patches the node against `previous` under `parent`, before `next`, and
    /// hands it back attached.
    fn patch(self, target: &mut Target, parent: Handle, next: Option<Handle>, previous: Option<T>) -> (out: Self)
        requires
            self.is_described(),
            Self::accepts(previous),
        ensures
            Self::is_patch(out, self, previous, old(target).depth()),
            final(target)@ == old(target)@ + Self::patching(out, self, previous, parent, next),
            final(target).depth() == old(target).depth(),
            final(target).request_flag() == old(target).request_flag(),
            numbered(old(target)@) ==> numbered(final(target)@),
    ;
}

/// Takes a node that is no longer wanted out of the target.
pub trait DOMRemove: Sized {
    /// The node can be removed: what it needs for that is there.
    spec fn is_removable(&self) -> bool;

    /// The effects of removing the node from `parent`.
    spec fn removal(&self, parent: Handle) -> Seq<EffectModel>;

    /// Takes the node out of `parent`.
    fn remove(self, target: &mut Target, parent: Handle)
        requires
            self.is_removable(),
        ensures
            final(target)@ == old(target)@ + self.removal(parent),
            final(target).depth() == old(target).depth(),
            final(target).request_flag() == old(target).request_flag(),
            numbered(old(target)@) ==> numbered(final(target)@),
    ;
}

/// Moves a node to another place among the children of its parent, as the
/// reordering of a keyed list needs it.
pub trait DOMReorder {
    /// The node can be moved: it has its node in the target.
    spec fn is_movable(&self) -> bool;

    /// The effects of moving the node to the end of `parent`.
    spec fn moving_to_last(&self, parent: Handle) -> Seq<EffectModel>;

    /// The effects of moving the node before `next` under `parent`.
    spec fn moving_before(&self, parent: Handle, next: Handle) -> Seq<EffectModel>;

    /// Moves the node to the end of `parent`.
    fn move_to_last(&self, target: &mut Target, parent: Handle)
        requires
            self.is_movable(),
        ensures
            final(target)@ == old(target)@ + self.moving_to_last(parent),
            final(target).depth() == old(target).depth(),
            final(target).request_flag() == old(target).request_flag(),
            numbered(old(target)@) ==> numbered(final(target)@),
    ;

    /// Moves the node before `next` under `parent`.
    fn move_before(&self, target: &mut Target, parent: Handle, next: Handle)
        requires
            self.is_movable(),
        ensures
            final(target)@ == old(target)@ + self.moving_before(parent, next),
            final(target).depth() == old(target).depth(),
            final(target).request_flag() == old(target).request_flag(),
            numbered(old(target)@) ==> numbered(final(target)@),
    ;
}

/// Says which node of the target stands first for a node.
pub trait DOMNode {
    /// The target's node that stands first for the node.
    spec fn first_node(&self) -> Option<Handle>;

    /// The target's node that stands first for the node, if it has one.
    fn dom_node(&self) -> (node: Option<Handle>)
        ensures
            node == self.first_node(),
    ;
}

/// Passes over a tree that is attached and renders the components in it
/// that are due.
pub trait DOMRender: Sized {
    /// `out` is what a pass may leave of `before`.
    spec fn is_render(out: Self, before: Self, depth: nat) -> bool;

    /// The effects of the pass over `before` that left `out`.
    spec fn rendering(out: Self, before: Self, parent: Handle, next: Option<Handle>) -> Seq<EffectModel>;

    /// Passes over the node and hands it back.
    fn dom_render(self, target: &mut Target, parent: Handle, next: Option<Handle>) -> (out: Self)
        ensures
            Self::is_render(out, self, old(target).depth()),
            final(target)@ == old(target)@ + Self::rendering(out, self, parent, next),
            final(target).depth() == old(target).depth(),
            final(target).request_flag() == old(target).request_flag(),
            numbered(old(target)@) ==> numbered(final(target)@),
    ;
}

impl DOMRender for VNode {
    open spec fn is_render(out: Self, before: Self, depth: nat) -> bool {
        is_render_of(out@, before@, depth)
    }

    open spec fn rendering(out: Self, before: Self, parent: Handle, next: Option<Handle>) -> Seq<EffectModel> {
        render_effects(out@, before@, parent, next)
    }

    fn dom_render(self, target: &mut Target, parent: Handle, next: Option<Handle>) -> (out: Self) {
        VNode::dom_render(self, target, parent, next)
    }
}

impl DOMRender for VElement {
    open spec fn is_render(out: Self, before: Self, depth: nat) -> bool {
        is_render_of(Tree::Element(out@), Tree::Element(before@), depth)
    }

    open spec fn rendering(out: Self, before: Self, parent: Handle, next: Option<Handle>) -> Seq<EffectModel> {
        render_effects(Tree::Element(out@), Tree::Element(before@), parent, next)
    }

    fn dom_render(self, target: &mut Target, parent: Handle, next: Option<Handle>) -> (out: Self) {
        VElement::dom_render(self, target, parent, next)
    }
}

impl DOMRender for VList {
    open spec fn is_render(out: Self, before: Self, depth: nat) -> bool {
        is_render_of(Tree::List(out@), Tree::List(before@), depth)
    }

    open spec fn rendering(out: Self, before: Self, parent: Handle, next: Option<Handle>) -> Seq<EffectModel> {
        render_effects(Tree::List(out@), Tree::List(before@), parent, next)
    }

    fn dom_render(self, target: &mut Target, parent: Handle, next: Option<Handle>) -> (out: Self) {
        VList::dom_render(self, target, parent, next)
    }
}

impl DOMRender for VComponent {
    open spec fn is_render(out: Self, before: Self, depth: nat) -> bool {
        component_is_render_of(out@, before@, depth)
    }

    open spec fn rendering(out: Self, before: Self, parent: Handle, next: Option<Handle>) -> Seq<EffectModel> {
        component_render_effects(out@, before@, parent, next)
    }

    fn dom_render(self, target: &mut Target, parent: Handle, next: Option<Handle>) -> (out: Self) {
        VComponent::dom_render(self, target, parent, next)
    }
}

impl<T: DOMRemove> DOMRemove for Option<T> {
    open spec fn is_removable(&self) -> bool {
        match self {
            Some(inner) => inner.is_removable(),
            None => true,
        }
    }

    open spec fn removal(&self, parent: Handle) -> Seq<EffectModel> {
        match self {
            Some(inner) => inner.removal(parent),
            None => none_effects(),
        }
    }

    /// Removes what is there, if anything is.
    fn remove(self, target: &mut Target, parent: Handle) {
        match self {
            Some(inner) => inner.remove(target, parent),
            None => {
                assert(target@ =~= old(target)@ + none_effects());
            },
        }
    }
}

impl<T: DOMRemove, Q: DOMPatch<T>> DOMPatch<T> for Option<Q> {
    open spec fn is_described(&self) -> bool {
        match self {
            Some(node) => node.is_described(),
            None => true,
        }
    }

    open spec fn accepts(previous: Option<T>) -> bool {
        Q::accepts(previous) && previous.is_removable()
    }

    open spec fn is_patch(out: Self, new: Self, previous: Option<T>, depth: nat) -> bool {
        match (out, new) {
            (Some(patched), Some(fresh)) => Q::is_patch(patched, fresh, previous, depth),
            (None, None) => true,
            _ => false,
        }
    }

    open spec fn patching(out: Self, new: Self, previous: Option<T>, parent: Handle, next: Option<Handle>) -> Seq<
        EffectModel,
    > {
        match (out, new) {
            (Some(patched), Some(fresh)) => Q::patching(patched, fresh, previous, parent, next),
            _ => previous.removal(parent),
        }
    }

    /// Patches what is there against what was there before; where nothing is
    /// there any more, what was there before is removed.
    fn patch(self, target: &mut Target, parent: Handle, next: Option<Handle>, previous: Option<T>) -> (out: Self) {
        match self {
            Some(this) => Some(this.patch(target, parent, next, previous)),
            None => {
                previous.remove(target, parent);
                None
            },
        }
    }
}

impl<Q, T: DOMPatch<Q>> DOMPatch<Q> for Box<T> {
    open spec fn is_described(&self) -> bool {
        (**self).is_described()
    }

    open spec fn accepts(previous: Option<Q>) -> bool {
        T::accepts(previous)
    }

    open spec fn is_patch(out: Self, new: Self, previous: Option<Q>, depth: nat) -> bool {
        T::is_patch(*out, *new, previous, depth)
    }

    open spec fn patching(out: Self, new: Self, previous: Option<Q>, parent: Handle, next: Option<Handle>) -> Seq<
        EffectModel,
    > {
        T::patching(*out, *new, previous, parent, next)
    }

    fn patch(self, target: &mut Target, parent: Handle, next: Option<Handle>, previous: Option<Q>) -> (out: Self) {
        let this: T = *self;
        Box::new(this.patch(target, parent, next, previous))
    }
}

impl DOMPatch<VText> for VText {
    open spec fn is_described(&self) -> bool {
        true
    }

    open spec fn accepts(previous: Option<VText>) -> bool {
        previous matches Some(old_text) ==> old_text@.is_attached()
    }

    open spec fn is_patch(out: Self, new: Self, previous: Option<VText>, depth: nat) -> bool {
        out@.is_patch_of(new@, previous.deep_view())
    }

    open spec fn patching(out: Self, new: Self, previous: Option<VText>, parent: Handle, next: Option<Handle>) -> Seq<
        EffectModel,
    > {
        out@.patch_effects(previous.deep_view(), parent, next)
    }

    fn patch(self, target: &mut Target, parent: Handle, next: Option<Handle>, previous: Option<VText>) -> (out:
        Self) {
        VText::patch(self, target, parent, next, previous)
    }
}

impl DOMRemove for VText {
    open spec fn is_removable(&self) -> bool {
        self@.is_attached()
    }

    open spec fn removal(&self, parent: Handle) -> Seq<EffectModel> {
        self@.remove_effects(parent)
    }

    fn remove(self, target: &mut Target, parent: Handle) {
        VText::remove(self, target, parent)
    }
}

impl DOMReorder for VText {
    open spec fn is_movable(&self) -> bool {
        self@.is_attached()
    }

    open spec fn moving_to_last(&self, parent: Handle) -> Seq<EffectModel> {
        self@.move_to_last_effects(parent)
    }

    open spec fn moving_before(&self, parent: Handle, next: Handle) -> Seq<EffectModel> {
        self@.move_before_effects(parent, next)
    }

    fn move_to_last(&self, target: &mut Target, parent: Handle) {
        VText::move_to_last(self, target, parent)
    }

    fn move_before(&self, target: &mut Target, parent: Handle, next: Handle) {
        VText::move_before(self, target, parent, next)
    }
}

impl DOMNode for VText {
    open spec fn first_node(&self) -> Option<Handle> {
        self@.dom_node()
    }

    fn dom_node(&self) -> (node: Option<Handle>) {
        VText::dom_node(self)
    }
}

impl DOMPatch<ClassString> for ClassString {
    open spec fn is_described(&self) -> bool {
        true
    }

    open spec fn accepts(previous: Option<ClassString>) -> bool {
        true
    }

    open spec fn is_patch(out: Self, new: Self, previous: Option<ClassString>, depth: nat) -> bool {
        out@ == new@
    }

    open spec fn patching(
        out: Self,
        new: Self,
        previous: Option<ClassString>,
        parent: Handle,
        next: Option<Handle>,
    ) -> Seq<EffectModel> {
        class_effects(previous.deep_view(), Some(new@), parent)
    }

    /// Writes the class of the element `parent` unless it is the class that
    /// was there before.
    fn patch(self, target: &mut Target, parent: Handle, next: Option<Handle>, previous: Option<ClassString>) -> (out:
        Self) {
        ClassString::patch(self, target, parent, previous)
    }
}

impl DOMRemove for ClassString {
    open spec fn is_removable(&self) -> bool {
        true
    }

    open spec fn removal(&self, parent: Handle) -> Seq<EffectModel> {
        class_effects(Some(self@), None, parent)
    }

    /// Unsets the class of the element `parent`.
    fn remove(self, target: &mut Target, parent: Handle) {
        ClassString::remove(self, target, parent)
    }
}

impl DOMPatch<Attributes> for Attributes {
    open spec fn is_described(&self) -> bool {
        true
    }

    open spec fn accepts(previous: Option<Attributes>) -> bool {
        true
    }

    open spec fn is_patch(out: Self, new: Self, previous: Option<Attributes>, depth: nat) -> bool {
        out@ == new@
    }

    open spec fn patching(
        out: Self,
        new: Self,
        previous: Option<Attributes>,
        parent: Handle,
        next: Option<Handle>,
    ) -> Seq<EffectModel> {
        attrs_effects(previous.deep_view(), Some(new@), parent)
    }

    /// Brings the attributes of the element `parent` up to date.
    fn patch(self, target: &mut Target, parent: Handle, next: Option<Handle>, previous: Option<Attributes>) -> (out:
        Self) {
        Attributes::patch(self, target, parent, previous)
    }
}

impl DOMRemove for Attributes {
    open spec fn is_removable(&self) -> bool {
        true
    }

    open spec fn removal(&self, parent: Handle) -> Seq<EffectModel> {
        attrs_effects(Some(self@), None, parent)
    }

    /// Unsets the attributes of the element `parent`.
    fn remove(self, target: &mut Target, parent: Handle) {
        Attributes::remove(self, target, parent)
    }
}

impl DOMPatch<Events> for Events {
    open spec fn is_described(&self) -> bool {
        crate::model::all_fresh(self@)
    }

    open spec fn accepts(previous: Option<Events>) -> bool {
        previous matches Some(old_events) ==> all_attached(old_events@)
    }

    open spec fn is_patch(out: Self, new: Self, previous: Option<Events>, depth: nat) -> bool {
        events_attached_from(out@, new@)
    }

    open spec fn patching(out: Self, new: Self, previous: Option<Events>, parent: Handle, next: Option<Handle>) -> Seq<
        EffectModel,
    > {
        events_effects(previous.deep_view(), out@, parent)
    }

    /// Detaches the bindings that were there before and attaches these to
    /// the element `parent`.
    fn patch(self, target: &mut Target, parent: Handle, next: Option<Handle>, previous: Option<Events>) -> (out:
        Self) {
        Events::patch(self, target, parent, previous)
    }
}

impl DOMRemove for Events {
    open spec fn is_removable(&self) -> bool {
        all_attached(self@)
    }

    open spec fn removal(&self, parent: Handle) -> Seq<EffectModel> {
        detach_effects(self@, self@.len() as int)
    }

    /// Detaches the bindings.
    fn remove(self, target: &mut Target, parent: Handle) {
        Events::remove(self, target)
    }
}

impl DOMPatch<VElement> for VElement {
    open spec fn is_described(&self) -> bool {
        crate::model::is_unbound(Tree::Element(self@))
    }

    open spec fn accepts(previous: Option<VElement>) -> bool {
        previous matches Some(old_element) ==> Tree::Element(old_element@).is_attached()
    }

    open spec fn is_patch(out: Self, new: Self, previous: Option<VElement>, depth: nat) -> bool {
        element_is_patch_of(out@, new@, previous.deep_view(), depth)
    }

    open spec fn patching(
        out: Self,
        new: Self,
        previous: Option<VElement>,
        parent: Handle,
        next: Option<Handle>,
    ) -> Seq<EffectModel> {
        element_patch_effects(out@, new@, previous.deep_view(), parent, next)
    }

    fn patch(self, target: &mut Target, parent: Handle, next: Option<Handle>, previous: Option<VElement>) -> (out:
        Self) {
        VElement::patch(self, target, parent, next, previous)
    }
}

impl DOMRemove for VElement {
    open spec fn is_removable(&self) -> bool {
        Tree::Element(self@).is_attached()
    }

    open spec fn removal(&self, parent: Handle) -> Seq<EffectModel> {
        Tree::Element(self@).remove_effects(parent)
    }

    fn remove(self, target: &mut Target, parent: Handle) {
        VElement::remove(self, target, parent)
    }
}

impl DOMReorder for VElement {
    open spec fn is_movable(&self) -> bool {
        Tree::Element(self@).is_attached()
    }

    open spec fn moving_to_last(&self, parent: Handle) -> Seq<EffectModel> {
        Tree::Element(self@).move_to_last_effects(parent)
    }

    open spec fn moving_before(&self, parent: Handle, next: Handle) -> Seq<EffectModel> {
        Tree::Element(self@).move_before_effects(parent, next)
    }

    fn move_to_last(&self, target: &mut Target, parent: Handle) {
        VElement::move_to_last(self, target, parent)
    }

    fn move_before(&self, target: &mut Target, parent: Handle, next: Handle) {
        VElement::move_before(self, target, parent, next)
    }
}

impl DOMNode for VElement {
    open spec fn first_node(&self) -> Option<Handle> {
        Tree::Element(self@).dom_node()
    }

    fn dom_node(&self) -> (node: Option<Handle>) {
        VElement::dom_node(self)
    }
}

impl DOMPatch<VList> for VList {
    open spec fn is_described(&self) -> bool {
        crate::model::is_unbound(Tree::List(self@))
    }

    open spec fn accepts(previous: Option<VList>) -> bool {
        previous matches Some(old_list) ==> Tree::List(old_list@).is_attached()
    }

    open spec fn is_patch(out: Self, new: Self, previous: Option<VList>, depth: nat) -> bool {
        list_is_patch_of(out@, new@, previous.deep_view(), depth)
    }

    open spec fn patching(out: Self, new: Self, previous: Option<VList>, parent: Handle, next: Option<Handle>) -> Seq<
        EffectModel,
    > {
        list_patch_effects(out@, new@, previous.deep_view(), parent, next)
    }

    fn patch(self, target: &mut Target, parent: Handle, next: Option<Handle>, previous: Option<VList>) -> (out:
        Self) {
        VList::patch(self, target, parent, next, previous)
    }
}

impl DOMRemove for VList {
    open spec fn is_removable(&self) -> bool {
        Tree::List(self@).is_attached()
    }

    open spec fn removal(&self, parent: Handle) -> Seq<EffectModel> {
        Tree::List(self@).remove_effects(parent)
    }

    fn remove(self, target: &mut Target, parent: Handle) {
        VList::remove(self, target, parent)
    }
}

impl DOMReorder for VList {
    open spec fn is_movable(&self) -> bool {
        Tree::List(self@).is_attached()
    }

    open spec fn moving_to_last(&self, parent: Handle) -> Seq<EffectModel> {
        Tree::List(self@).move_to_last_effects(parent)
    }

    open spec fn moving_before(&self, parent: Handle, next: Handle) -> Seq<EffectModel> {
        Tree::List(self@).move_before_effects(parent, next)
    }

    fn move_to_last(&self, target: &mut Target, parent: Handle) {
        VList::move_to_last(self, target, parent)
    }

    fn move_before(&self, target: &mut Target, parent: Handle, next: Handle) {
        VList::move_before(self, target, parent, next)
    }
}

impl DOMNode for VList {
    open spec fn first_node(&self) -> Option<Handle> {
        Tree::List(self@).dom_node()
    }

    fn dom_node(&self) -> (node: Option<Handle>) {
        VList::dom_node(self)
    }
}

impl DOMPatch<VComponent> for VComponent {
    open spec fn is_described(&self) -> bool {
        true
    }

    open spec fn accepts(previous: Option<VComponent>) -> bool {
        previous matches Some(old_component) ==> Tree::Component(old_component@).is_attached()
    }

    open spec fn is_patch(out: Self, new: Self, previous: Option<VComponent>, depth: nat) -> bool {
        component_is_patch_of(out@, new@, previous.deep_view(), depth)
    }

    open spec fn patching(
        out: Self,
        new: Self,
        previous: Option<VComponent>,
        parent: Handle,
        next: Option<Handle>,
    ) -> Seq<EffectModel> {
        component_patch_effects(out@, new@, previous.deep_view(), parent, next)
    }

    fn patch(self, target: &mut Target, parent: Handle, next: Option<Handle>, previous: Option<VComponent>) -> (out:
        Self) {
        VComponent::patch(self, target, parent, next, previous)
    }
}

impl DOMRemove for VComponent {
    open spec fn is_removable(&self) -> bool {
        self@.instance is Some && self@.rendered is Some
    }

    open spec fn removal(&self, parent: Handle) -> Seq<EffectModel> {
        Tree::Component(self@).remove_effects(parent)
    }

    fn remove(self, target: &mut Target, parent: Handle) {
        VComponent::remove(self, target, parent)
    }
}

impl DOMReorder for VComponent {
    open spec fn is_movable(&self) -> bool {
        true
    }

    open spec fn moving_to_last(&self, parent: Handle) -> Seq<EffectModel> {
        Tree::Component(self@).move_to_last_effects(parent)
    }

    open spec fn moving_before(&self, parent: Handle, next: Handle) -> Seq<EffectModel> {
        Tree::Component(self@).move_before_effects(parent, next)
    }

    fn move_to_last(&self, target: &mut Target, parent: Handle) {
        VComponent::move_to_last(self, target, parent)
    }

    fn move_before(&self, target: &mut Target, parent: Handle, next: Handle) {
        VComponent::move_before(self, target, parent, next)
    }
}

impl DOMNode for VComponent {
    open spec fn first_node(&self) -> Option<Handle> {
        Tree::Component(self@).dom_node()
    }

    fn dom_node(&self) -> (node: Option<Handle>) {
        VComponent::dom_node(self)
    }
}

impl DOMPatch<VNode> for VNode {
    open spec fn is_described(&self) -> bool {
        crate::model::is_unbound(self@)
    }

    open spec fn accepts(previous: Option<VNode>) -> bool {
        previous matches Some(old_node) ==> old_node@.is_attached()
    }

    open spec fn is_patch(out: Self, new: Self, previous: Option<VNode>, depth: nat) -> bool {
        is_patch_of(out@, new@, previous.deep_view(), depth)
    }

    open spec fn patching(out: Self, new: Self, previous: Option<VNode>, parent: Handle, next: Option<Handle>) -> Seq<
        EffectModel,
    > {
        patch_effects(out@, new@, previous.deep_view(), parent, next)
    }

    fn patch(self, target: &mut Target, parent: Handle, next: Option<Handle>, previous: Option<VNode>) -> (out:
        Self) {
        VNode::patch(self, target, parent, next, previous)
    }
}

impl DOMRemove for VNode {
    open spec fn is_removable(&self) -> bool {
        self@.is_attached()
    }

    open spec fn removal(&self, parent: Handle) -> Seq<EffectModel> {
        self@.remove_effects(parent)
    }

    fn remove(self, target: &mut Target, parent: Handle) {
        VNode::remove(self, target, parent)
    }
}

impl DOMReorder for VNode {
    open spec fn is_movable(&self) -> bool {
        self@.is_attached()
    }

    open spec fn moving_to_last(&self, parent: Handle) -> Seq<EffectModel> {
        self@.move_to_last_effects(parent)
    }

    open spec fn moving_before(&self, parent: Handle, next: Handle) -> Seq<EffectModel> {
        self@.move_before_effects(parent, next)
    }

    fn move_to_last(&self, target: &mut Target, parent: Handle) {
        VNode::move_to_last(self, target, parent)
    }

    fn move_before(&self, target: &mut Target, parent: Handle, next: Handle) {
        VNode::move_before(self, target, parent, next)
    }
}

impl DOMNode for VNode {
    open spec fn first_node(&self) -> Option<Handle> {
        self@.dom_node()
    }

    fn dom_node(&self) -> (node: Option<Handle>) {
        VNode::dom_node(self)
    }
}

} // verus!
