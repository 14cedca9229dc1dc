//! The render target, as the engine sees it.
//!
//! The engine never touches a live document. It issues the target's primitives
//! on a [`Target`], which records them in order; whoever owns the document
//! replays the record. A node's handle is the position of the call that created
//! it, so no two calls ever hand out the same handle.

use crate::scheduler::RenderRequest;
use crate::scheduler::RenderRequestSender;
use vstd::prelude::*;

verus! {

/// Names one node, listener or component instance of a target.
pub type Handle = usize;

/// How many components may be rendered inside one another when nothing else
/// is asked for: more than a machine can hold at a time, so that a pass
/// leaves no component out for want of depth.
pub const DEFAULT_DEPTH: usize = usize::MAX;

/// A lifecycle hook of a component.
#[derive(Clone, Copy, Debug, PartialEq, Eq, Structural)]
pub enum Hook {
    Created,
    Mounted,
    Updated,
    Destroyed,
}

/// One thing a pass did: a primitive of the render target, or a hook fired.
#[derive(Clone, Debug, PartialEq, Eq)]
pub enum Effect {
    /// An element that exists already was taken as a place to render under.
    Adopt { node: Handle },
    CreateElement { node: Handle, tag: String },
    CreateText { node: Handle, content: String },
    SetText { node: Handle, content: String },
    SetAttribute { node: Handle, key: String, value: String },
    RemoveAttribute { node: Handle, key: String },
    InsertBefore { parent: Handle, node: Handle, sibling: Handle },
    AppendChild { parent: Handle, node: Handle },
    RemoveChild { parent: Handle, node: Handle },
    AddEventListener { listener: Handle, node: Handle, event_type: String, callback: u64 },
    RemoveEventListener { listener: Handle },
    Lifecycle { component: Handle, hook: Hook },
}

/// An [`Effect`] with its strings as sequences of characters.
pub enum EffectModel {
    Adopt { node: Handle },
    CreateElement { node: Handle, tag: Seq<char> },
    CreateText { node: Handle, content: Seq<char> },
    SetText { node: Handle, content: Seq<char> },
    SetAttribute { node: Handle, key: Seq<char>, value: Seq<char> },
    RemoveAttribute { node: Handle, key: Seq<char> },
    InsertBefore { parent: Handle, node: Handle, sibling: Handle },
    AppendChild { parent: Handle, node: Handle },
    RemoveChild { parent: Handle, node: Handle },
    AddEventListener { listener: Handle, node: Handle, event_type: Seq<char>, callback: u64 },
    RemoveEventListener { listener: Handle },
    Lifecycle { component: Handle, hook: Hook },
}

impl View for Effect {
    type V = EffectModel;

    open spec fn view(&self) -> EffectModel {
        match *self {
            Effect::Adopt { node } => EffectModel::Adopt { node },
            Effect::CreateElement { node, tag } => EffectModel::CreateElement { node, tag: tag@ },
            Effect::CreateText { node, content } => EffectModel::CreateText { node, content: content@ },
            Effect::SetText { node, content } => EffectModel::SetText { node, content: content@ },
            Effect::SetAttribute { node, key, value } => EffectModel::SetAttribute {
                node,
                key: key@,
                value: value@,
            },
            Effect::RemoveAttribute { node, key } => EffectModel::RemoveAttribute { node, key: key@ },
            Effect::InsertBefore { parent, node, sibling } => EffectModel::InsertBefore {
                parent,
                node,
                sibling,
            },
            Effect::AppendChild { parent, node } => EffectModel::AppendChild { parent, node },
            Effect::RemoveChild { parent, node } => EffectModel::RemoveChild { parent, node },
            Effect::AddEventListener { listener, node, event_type, callback } => EffectModel::AddEventListener {
                listener,
                node,
                event_type: event_type@,
                callback,
            },
            Effect::RemoveEventListener { listener } => EffectModel::RemoveEventListener { listener },
            Effect::Lifecycle { component, hook } => EffectModel::Lifecycle { component, hook },
        }
    }
}

/// The handle that an effect hands out, if it hands one out: that of the
/// node, listener or component instance it makes known.
pub open spec fn introduced(effect: EffectModel) -> Option<Handle> {
    match effect {
        EffectModel::Adopt { node } => Some(node),
        EffectModel::CreateElement { node, .. } => Some(node),
        EffectModel::CreateText { node, .. } => Some(node),
        EffectModel::AddEventListener { listener, .. } => Some(listener),
        EffectModel::Lifecycle { component, hook: Hook::Created } => Some(component),
        _ => None,
    }
}

/// Every handle that the record hands out is the position of the effect
/// that hands it out. No handle is then handed out twice.
pub open spec fn numbered(record: Seq<EffectModel>) -> bool {
    forall|i: int| 0 <= i < record.len() ==> (introduced(#[trigger] record[i]) matches Some(handle) ==> handle == i)
}

/// The one call that puts `node` under `parent`: before `next` where there is
/// one, else last.
pub open spec fn placed(parent: Handle, node: Handle, next: Option<Handle>) -> Seq<EffectModel> {
    match next {
        Some(sibling) => seq![EffectModel::InsertBefore { parent, node, sibling }],
        None => seq![EffectModel::AppendChild { parent, node }],
    }
}

/// A recording render target. It also carries what a pass needs besides:
/// how deep components may still nest, and where components ask for the next
/// pass.
pub struct Target {
    effects: Vec<Effect>,
    depth: usize,
    render_req: RenderRequest,
}

impl View for Target {
    type V = Seq<EffectModel>;

    /// Everything recorded so far, oldest first.
    closed spec fn view(&self) -> Seq<EffectModel> {
        Seq::new(self.effects@.len(), |i: int| self.effects@[i]@)
    }
}

impl Target {
    /// How many more components may be rendered inside one another from here.
    pub closed spec fn depth(&self) -> nat {
        self.depth as nat
    }

    /// A target with nothing recorded.
    pub fn new() -> (target: Target)
        ensures
            target@ == Seq::<EffectModel>::empty(),
            target.depth() == DEFAULT_DEPTH,
    {
        let target = Target { effects: Vec::new(), depth: DEFAULT_DEPTH, render_req: RenderRequest::new() };
        assert(target@ =~= Seq::<EffectModel>::empty());
        target
    }

    /// A target with nothing recorded that lets components nest `depth` deep.
    pub fn with_depth(depth: usize) -> (target: Target)
        ensures
            target@ == Seq::<EffectModel>::empty(),
            target.depth() == depth,
    {
        let target = Target { effects: Vec::new(), depth, render_req: RenderRequest::new() };
        assert(target@ =~= Seq::<EffectModel>::empty());
        target
    }

    /// The number of effects recorded.
    pub fn len(&self) -> (n: usize)
        ensures
            n == self@.len(),
    {
        self.effects.len()
    }

    /// The effect recorded at position `i`.
    pub fn effect(&self, i: usize) -> (effect: &Effect)
        requires
            i < self@.len(),
        ensures
            effect@ == self@[i as int],
    {
        &self.effects[i]
    }

    /// The whole record, oldest first.
    pub fn effects(&self) -> (effects: &Vec<Effect>)
        ensures
            effects@.len() == self@.len(),
            forall|i: int| 0 <= i < effects@.len() ==> (#[trigger] effects@[i])@ == self@[i],
    {
        &self.effects
    }

    /// The nesting allowance that is left.
    pub fn remaining_depth(&self) -> (depth: usize)
        ensures
            depth == self.depth(),
    {
        self.depth
    }

    /// Records one effect. An effect that hands out a handle hands out its own
    /// position.
    fn record(&mut self, effect: Effect)
        requires
            introduced(effect@) matches Some(handle) ==> handle == old(self)@.len(),
        ensures
            final(self)@ == old(self)@.push(effect@),
            final(self).depth() == old(self).depth(),
            final(self).request_flag() == old(self).request_flag(),
            numbered(old(self)@) ==> numbered(final(self)@),
    {
        self.effects.push(effect);
        assert(self@ =~= old(self)@.push(effect@));
    }

    /// Takes an element that the document already has as a place to render
    /// under, and gives it a handle.
    pub fn adopt(&mut self) -> (node: Handle)
        ensures
            node == old(self)@.len(),
            final(self)@ == old(self)@.push(EffectModel::Adopt { node }),
            final(self).depth() == old(self).depth(),
            final(self).request_flag() == old(self).request_flag(),
            numbered(old(self)@) ==> numbered(final(self)@),
    {
        let node = self.effects.len();
        self.record(Effect::Adopt { node });
        node
    }

    /// Creates an element with the tag and hands back its handle.
    pub fn create_element(&mut self, tag: &str) -> (node: Handle)
        ensures
            node == old(self)@.len(),
            final(self)@ == old(self)@.push(EffectModel::CreateElement { node, tag: tag@ }),
            final(self).depth() == old(self).depth(),
            final(self).request_flag() == old(self).request_flag(),
            numbered(old(self)@) ==> numbered(final(self)@),
    {
        let node = self.effects.len();
        self.record(Effect::CreateElement { node, tag: tag.to_owned() });
        node
    }

    /// Creates a text node with the content and hands back its handle.
    pub fn create_text(&mut self, content: &str) -> (node: Handle)
        ensures
            node == old(self)@.len(),
            final(self)@ == old(self)@.push(EffectModel::CreateText { node, content: content@ }),
            final(self).depth() == old(self).depth(),
            final(self).request_flag() == old(self).request_flag(),
            numbered(old(self)@) ==> numbered(final(self)@),
    {
        let node = self.effects.len();
        self.record(Effect::CreateText { node, content: content.to_owned() });
        node
    }

    /// Rewrites the text of `node`.
    pub fn set_text(&mut self, node: Handle, content: &str)
        ensures
            final(self)@ == old(self)@.push(EffectModel::SetText { node, content: content@ }),
            final(self).depth() == old(self).depth(),
            final(self).request_flag() == old(self).request_flag(),
            numbered(old(self)@) ==> numbered(final(self)@),
    {
        self.record(Effect::SetText { node, content: content.to_owned() });
    }

    /// Sets an attribute of `node`.
    pub fn set_attribute(&mut self, node: Handle, key: &str, value: &str)
        ensures
            final(self)@ == old(self)@.push(
                EffectModel::SetAttribute { node, key: key@, value: value@ },
            ),
            final(self).depth() == old(self).depth(),
            final(self).request_flag() == old(self).request_flag(),
            numbered(old(self)@) ==> numbered(final(self)@),
    {
        self.record(Effect::SetAttribute { node, key: key.to_owned(), value: value.to_owned() });
    }

    /// Unsets an attribute of `node`.
    pub fn remove_attribute(&mut self, node: Handle, key: &str)
        ensures
            final(self)@ == old(self)@.push(EffectModel::RemoveAttribute { node, key: key@ }),
            final(self).depth() == old(self).depth(),
            final(self).request_flag() == old(self).request_flag(),
            numbered(old(self)@) ==> numbered(final(self)@),
    {
        self.record(Effect::RemoveAttribute { node, key: key.to_owned() });
    }

    /// Puts `node` under `parent`, before `sibling`.
    pub fn insert_before(&mut self, parent: Handle, node: Handle, sibling: Handle)
        ensures
            final(self)@ == old(self)@.push(EffectModel::InsertBefore { parent, node, sibling }),
            final(self).depth() == old(self).depth(),
            final(self).request_flag() == old(self).request_flag(),
            numbered(old(self)@) ==> numbered(final(self)@),
    {
        self.record(Effect::InsertBefore { parent, node, sibling });
    }

    /// Puts `node` under `parent`, last.
    pub fn append_child(&mut self, parent: Handle, node: Handle)
        ensures
            final(self)@ == old(self)@.push(EffectModel::AppendChild { parent, node }),
            final(self).depth() == old(self).depth(),
            final(self).request_flag() == old(self).request_flag(),
            numbered(old(self)@) ==> numbered(final(self)@),
    {
        self.record(Effect::AppendChild { parent, node });
    }

    /// Takes `node` out of `parent`.
    pub fn remove_child(&mut self, parent: Handle, node: Handle)
        ensures
            final(self)@ == old(self)@.push(EffectModel::RemoveChild { parent, node }),
            final(self).depth() == old(self).depth(),
            final(self).request_flag() == old(self).request_flag(),
            numbered(old(self)@) ==> numbered(final(self)@),
    {
        self.record(Effect::RemoveChild { parent, node });
    }

    /// Puts `node` under `parent`: before `next` where there is one, else last.
    pub fn place(&mut self, parent: Handle, node: Handle, next: Option<Handle>)
        ensures
            final(self)@ == old(self)@ + placed(parent, node, next),
            final(self).depth() == old(self).depth(),
            final(self).request_flag() == old(self).request_flag(),
            numbered(old(self)@) ==> numbered(final(self)@),
    {
        match next {
            Some(sibling) => self.insert_before(parent, node, sibling),
            None => self.append_child(parent, node),
        }
        assert(self@ =~= old(self)@ + placed(parent, node, next));
    }

    /// Attaches the callback to `node` for events of the type and hands back
    /// the handle of the listener.
    pub fn add_event_listener(&mut self, node: Handle, event_type: &str, callback: u64) -> (listener:
        Handle)
        ensures
            listener == old(self)@.len(),
            final(self)@ == old(self)@.push(
                EffectModel::AddEventListener { listener, node, event_type: event_type@, callback },
            ),
            final(self).depth() == old(self).depth(),
            final(self).request_flag() == old(self).request_flag(),
            numbered(old(self)@) ==> numbered(final(self)@),
    {
        let listener = self.effects.len();
        self.record(
            Effect::AddEventListener { listener, node, event_type: event_type.to_owned(), callback },
        );
        listener
    }

    /// Detaches a listener.
    pub fn remove_event_listener(&mut self, listener: Handle)
        ensures
            final(self)@ == old(self)@.push(EffectModel::RemoveEventListener { listener }),
            final(self).depth() == old(self).depth(),
            final(self).request_flag() == old(self).request_flag(),
            numbered(old(self)@) ==> numbered(final(self)@),
    {
        self.record(Effect::RemoveEventListener { listener });
    }

    /// The flag that components raise to ask for a render pass and that
    /// [`Target::take_render_request`] looks at.
    pub closed spec fn request_flag(&self) -> std::rc::Rc<std::cell::Cell<bool>> {
        self.render_req.flag()
    }

    /// A sender for requests of a render pass; they arrive at
    /// [`Target::take_render_request`], since the sender raises the flag that
    /// is looked at there.
    pub fn sender(&self) -> (sender: RenderRequestSender)
        ensures
            sender.flag() == self.request_flag(),
    {
        self.render_req.sender()
    }

    /// Whether a component has asked for a render pass since this was last
    /// looked at.
    pub fn take_render_request(&self) -> (requested: bool)
        ensures
            crate::scheduler::read_as(self.request_flag(), requested),
            crate::scheduler::set_to(self.request_flag(), false),
    {
        self.render_req.receive()
    }

    /// Records that a component instance was made and its `created` hook
    /// fired, and gives the instance a handle.
    pub fn created(&mut self) -> (component: Handle)
        ensures
            component == old(self)@.len(),
            final(self)@ == old(self)@.push(EffectModel::Lifecycle { component, hook: Hook::Created }),
            final(self).depth() == old(self).depth(),
            final(self).request_flag() == old(self).request_flag(),
            numbered(old(self)@) ==> numbered(final(self)@),
    {
        let component = self.effects.len();
        self.record(Effect::Lifecycle { component, hook: Hook::Created });
        component
    }

    /// Records that `hook` of the component instance `component` was fired.
    /// That an instance was created is recorded by [`Target::created`], which
    /// hands out its handle.
    pub fn lifecycle(&mut self, component: Handle, hook: Hook)
        requires
            hook != Hook::Created,
        ensures
            final(self)@ == old(self)@.push(EffectModel::Lifecycle { component, hook }),
            final(self).depth() == old(self).depth(),
            final(self).request_flag() == old(self).request_flag(),
            numbered(old(self)@) ==> numbered(final(self)@),
    {
        self.record(Effect::Lifecycle { component, hook });
    }

    /// Steps one component level down.
    pub(crate) fn enter(&mut self)
        requires
            old(self).depth() > 0,
        ensures
            final(self)@ == old(self)@,
            final(self).depth() == old(self).depth() - 1,
            final(self).request_flag() == old(self).request_flag(),
    {
        self.depth = self.depth - 1;
        assert(self@ =~= old(self)@);
    }

    /// Steps one component level up again.
    pub(crate) fn leave(&mut self)
        requires
            old(self).depth() < usize::MAX,
        ensures
            final(self)@ == old(self)@,
            final(self).depth() == old(self).depth() + 1,
            final(self).request_flag() == old(self).request_flag(),
    {
        self.depth = self.depth + 1;
        assert(self@ =~= old(self)@);
    }
}

} // verus!
