//! What a component has to provide.

use crate::scheduler::Notifier;
use crate::vnode::VNode;
use vstd::prelude::*;

verus! {

/// Says what a component shows.
pub trait Render {
    /// The tree that the component shows now.
    fn render(&self) -> VNode;
}

/// The hooks of a component's life. Each does nothing unless it is written.
pub trait Lifecycle: Render {
    /// The instance was made.
    fn created(&self) {
    }

    /// What the instance rendered stands in the target for the first time.
    fn mounted(&self) {
    }

    /// What the instance rendered anew stands in the target.
    fn updated(&self) {
    }

    /// What the instance rendered has left the target.
    fn destroyed(&self) {
    }
}

/// A component: made from props and a notifier, told of new props later.
pub trait Component: Lifecycle + Sized {
    /// What the component is made from.
    type Props: PartialEq;

    /// Makes the instance. It calls `notifier` whenever what it shows may
    /// have changed.
    fn create(props: Self::Props, notifier: Notifier) -> Self;

    /// Takes over props that differ from those it has.
    fn update(&self, props: Self::Props);

    /// Whether `rhs` are the props it has.
    fn eq_props(&self, rhs: &Self::Props) -> bool;
}

/// Rendering without a target: every component is created and holds what
/// it rendered. It is done once: no component is made an instance twice.
pub trait ServerRender: Sized {
    /// Nothing of it has rendered before.
    spec fn servable(&self) -> bool;

    /// `out` is what rendering `before` without a target may leave of it.
    spec fn served(out: Self, before: Self) -> bool;

    /// Renders the components, in place.
    fn server_render(&mut self)
        requires
            old(self).servable(),
        ensures
            Self::served(*final(self), *old(self)),
    ;
}

/// The markup of a tree whose components are rendered on the way.
pub trait RenderToString: ServerRender {
    /// The markup of the tree.
    spec fn markup(&self) -> Seq<char>;

    /// Renders the components, in place, and gives the markup.
    fn render_to_string(&mut self) -> (html: String)
        requires
            old(self).servable(),
        ensures
            Self::served(*final(self), *old(self)),
            html@ == final(self).markup(),
    ;
}

/// Whether new props are handed to an instance, given whether they are the
/// props it has (`same`): exactly if they are not.
pub fn hands_on(same: bool) -> (hand: bool)
    ensures
        hand == !same,
{
    !same
}

/// Hands `props` to `instance` if they differ from those it has, and says
/// whether it did: the instance's `eq_props` was asked and denied it exactly
/// if its `update` then took the props.
pub fn refresh<T: Component>(instance: &T, props: T::Props) -> (updated: bool)
    ensures
        call_ensures(T::eq_props, (instance, &props), !updated),
        updated ==> call_ensures(T::update, (instance, props), ()),
{
    let same = instance.eq_props(&props);
    if hands_on(same) {
        instance.update(props);
        true
    } else {
        false
    }
}

} // verus!
