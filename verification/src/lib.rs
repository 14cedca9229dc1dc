//! A virtual DOM: trees of nodes that describe what a document should show,
//! and the reconciliation that brings a render target from one tree to the
//! next with as few changes as the trees allow.
//!
//! A tree is made of [`vtext`], [`velement`], [`vlist`] and [`vcomponent`]
//! nodes, which [`vnode`] sums up. Every kind of node can be patched against
//! the node that was there before, removed, moved and passed over; [`vdiff`]
//! holds that protocol. Nothing here touches a live document: a pass issues
//! the primitives of the render target on a [`target::Target`], which records
//! them for whoever owns the document.
//!
//! The contracts are stated over the mathematical trees of [`model`].
//! [`patching`] says what a pass may hand back and what it records;
//! [`laws`], [`document`] and [`order`] state and prove what follows from
//! that for every tree. [`reconcile`] holds the steps of the keyed
//! reconciliation of lists, [`attributes`] and [`events`] the parts of an
//! element. [`ordered`] and [`erased`] hold what is believed and not proved:
//! the collections of `indexmap`, and the forgetting of a component's type.

pub mod attributes;
pub mod codegen;
pub mod document;
pub mod erased;
pub mod events;
pub mod keys;
pub mod laws;
pub mod model;
pub mod order;
pub mod ordered;
pub mod patching;
pub mod prelude;
pub mod reconcile;
pub mod scheduler;
pub mod target;
pub mod traits;
pub mod vcomponent;
pub mod vdiff;
pub mod velement;
pub mod vlist;
pub mod vnode;
pub mod vtext;

use crate::vcomponent::VComponent;
use crate::velement::VElement;
use crate::vlist::VList;
use crate::vnode::VNode;
use crate::vtext::VText;
use vstd::prelude::*;

pub use crate::events::DOMEventListener;
pub use crate::scheduler::RenderRequest;
pub use crate::traits::Component;
pub use crate::traits::Lifecycle;
pub use crate::traits::Render;
pub use crate::traits::RenderToString;
pub use crate::traits::ServerRender;
pub use crate::vdiff::DOMRender;

verus! {

/// A component of type `T` with `props`.
pub fn comp<T: Component + 'static>(props: T::Props) -> (component: VComponent)
    ensures
        component.is_of::<T>(),
        component.awaits::<T>(props),
        component.starts_clean(),
        component.instance() is None,
        component@.instance is None,
        component@.source is None,
        component@.rendered is None,
        component@.pass == crate::model::Pass::Pending,
        component@.served is None,
{
    VComponent::new::<T>(props)
}

/// The text that `item` converts into.
pub fn txt<T: Into<VText>>(item: T) -> (text: VText)
    ensures
        call_ensures(<T as Into<VText>>::into, (item,), text),
{
    item.into()
}

/// The element that `item` converts into.
pub fn el<T: Into<VElement>>(item: T) -> (element: VElement)
    ensures
        call_ensures(<T as Into<VElement>>::into, (item,), element),
{
    item.into()
}

/// The list that `item` converts into.
pub fn li<T: Into<VList>>(item: T) -> (list: VList)
    ensures
        call_ensures(<T as Into<VList>>::into, (item,), list),
{
    item.into()
}

/// The node that `node_like` converts into.
pub fn h<T: Into<VNode>>(node_like: T) -> (node: VNode)
    ensures
        call_ensures(<T as Into<VNode>>::into, (node_like,), node),
{
    node_like.into()
}

/// The event binding that `listener` converts into.
pub fn ev<E: Into<DOMEventListener>>(listener: E) -> (binding: DOMEventListener)
    ensures
        call_ensures(<E as Into<DOMEventListener>>::into, (listener,), binding),
{
    listener.into()
}

} // verus!
