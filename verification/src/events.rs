//! Event bindings of an element.
//!
//! The callback of a binding lives with the owner of the document, who knows
//! it by a number; the engine decides when a binding is attached to a node of
//! the target and when it is detached again.

use crate::model::all_attached;
use crate::model::all_fresh;
use crate::model::all_renewed;
use crate::model::attach_effects;
use crate::model::detach_effects;
use crate::model::ListenerModel;
use crate::patching::events_attached_from;
use crate::patching::events_effects;
use crate::target::EffectModel;
use crate::target::Handle;
use crate::target::Target;
use vstd::prelude::*;

verus! {

/// One event binding. It is attached once in its life: `spent` says that it
/// was.
pub struct DOMEventListener {
    event_type: String,
    callback: u64,
    listener_handle: Option<Handle>,
    spent: bool,
}

impl View for DOMEventListener {
    type V = ListenerModel;

    closed spec fn view(&self) -> ListenerModel {
        ListenerModel {
            event_type: self.event_type@,
            callback: self.callback,
            handle: self.listener_handle,
            spent: self.spent,
        }
    }
}

impl DOMEventListener {
    /// The binding has been attached, whether or not it still is.
    pub open spec fn was_attached(&self) -> bool {
        self@.spent
    }

    /// A binding of the callback `callback` to events of type `event_type`,
    /// never attached.
    pub fn new(event_type: &str, callback: u64) -> (listener: DOMEventListener)
        ensures
            listener@ == (ListenerModel { event_type: event_type@, callback, handle: None, spent: false }),
            !listener.was_attached(),
    {
        DOMEventListener { event_type: event_type.to_owned(), callback, listener_handle: None, spent: false }
    }

    /// Whether the binding can still be attached: it has no listener and
    /// never had one.
    pub fn is_fresh(&self) -> (fresh: bool)
        ensures
            fresh == (self@.handle is None && !self.was_attached()),
    {
        self.listener_handle.is_none() && !self.spent
    }

    /// The type of event the binding listens for.
    pub fn event_type(&self) -> (event_type: &str)
        ensures
            event_type@ == self@.event_type,
    {
        self.event_type.as_str()
    }

    /// The number of the callback.
    pub fn callback(&self) -> (callback: u64)
        ensures
            callback == self@.callback,
    {
        self.callback
    }

    /// The target's listener, once attached.
    pub fn listener_handle(&self) -> (handle: Option<Handle>)
        ensures
            handle == self@.handle,
    {
        self.listener_handle
    }

    /// Attaches the binding to `node`. A binding is attached once: one that
    /// has a listener, or had one, is not attached again.
    pub fn attach(&mut self, target: &mut Target, node: Handle)
        requires
            old(self)@.handle is None,
            !old(self).was_attached(),
        ensures
            final(self)@ == (ListenerModel { handle: Some(old(target)@.len() as Handle), spent: true, ..old(self)@ }),
            final(target)@ == old(target)@.push(
                EffectModel::AddEventListener {
                    listener: old(target)@.len() as Handle,
                    node,
                    event_type: old(self)@.event_type,
                    callback: old(self)@.callback,
                },
            ),
            final(target).depth() == old(target).depth(),
            final(target).request_flag() == old(target).request_flag(),
            crate::target::numbered(old(target)@) ==> crate::target::numbered(final(target)@),
    {
        let listener = target.add_event_listener(node, self.event_type.as_str(), self.callback);
        self.listener_handle = Some(listener);
        self.spent = true;
    }

    /// Detaches the binding from the node it is attached to.
    pub fn detach(&mut self, target: &mut Target)
        requires
            old(self)@.handle is Some,
        ensures
            final(self)@ == (ListenerModel { handle: None, spent: true, ..old(self)@ }),
            final(target)@ == old(target)@.push(
                EffectModel::RemoveEventListener { listener: old(self)@.handle->0 },
            ),
            final(target).depth() == old(target).depth(),
            final(target).request_flag() == old(target).request_flag(),
            crate::target::numbered(old(target)@) ==> crate::target::numbered(final(target)@),
    {
        match self.listener_handle {
            Some(listener) => target.remove_event_listener(listener),
            None => vstd::pervasive::unreached(),
        }
        self.listener_handle = None;
        self.spent = true;
    }
}

/// What can be attached to a node of the target as a listener for events,
/// and detached again.
pub trait DOMEvent {
    /// The binding as the contracts see it.
    spec fn binding(&self) -> ListenerModel;

    /// The type of event listened for.
    fn event_type(&self) -> (event_type: &str)
        ensures
            event_type@ == self.binding().event_type,
    ;

    /// Attaches the listener to `parent`, once in its life.
    fn attach(&mut self, target: &mut Target, parent: Handle)
        requires
            old(self).binding().handle is None,
            !old(self).binding().spent,
        ensures
            final(self).binding() == (ListenerModel {
                handle: Some(old(target)@.len() as Handle),
                spent: true,
                ..old(self).binding()
            }),
            final(target)@ == old(target)@.push(
                EffectModel::AddEventListener {
                    listener: old(target)@.len() as Handle,
                    node: parent,
                    event_type: old(self).binding().event_type,
                    callback: old(self).binding().callback,
                },
            ),
            final(target).depth() == old(target).depth(),
            final(target).request_flag() == old(target).request_flag(),
            crate::target::numbered(old(target)@) ==> crate::target::numbered(final(target)@),
    ;

    /// Detaches the listener from the node it is attached to.
    fn detach(&mut self, target: &mut Target)
        requires
            old(self).binding().handle is Some,
        ensures
            final(self).binding() == (ListenerModel { handle: None, spent: true, ..old(self).binding() }),
            final(target)@ == old(target)@.push(
                EffectModel::RemoveEventListener { listener: old(self).binding().handle->0 },
            ),
            final(target).depth() == old(target).depth(),
            final(target).request_flag() == old(target).request_flag(),
            crate::target::numbered(old(target)@) ==> crate::target::numbered(final(target)@),
    ;
}

impl DOMEvent for DOMEventListener {
    open spec fn binding(&self) -> ListenerModel {
        self@
    }

    fn event_type(&self) -> (event_type: &str) {
        DOMEventListener::event_type(self)
    }

    fn attach(&mut self, target: &mut Target, parent: Handle) {
        DOMEventListener::attach(self, target, parent)
    }

    fn detach(&mut self, target: &mut Target) {
        DOMEventListener::detach(self, target)
    }
}

impl<'a> From<(&'a str, u64)> for DOMEventListener {
    /// A binding of the callback to events of the type.
    fn from(item: (&'a str, u64)) -> (listener: DOMEventListener)
        ensures
            listener@ == (ListenerModel { event_type: item.0@, callback: item.1, handle: None, spent: false }),
            !listener.was_attached(),
    {
        DOMEventListener::new(item.0, item.1)
    }
}

impl<'a> vstd::std_specs::convert::FromSpecImpl<(&'a str, u64)> for DOMEventListener {
    open spec fn obeys_from_spec() -> bool {
        false
    }

    open spec fn from_spec(v: (&'a str, u64)) -> DOMEventListener {
        arbitrary()
    }
}

/// The models of a sequence of bindings.
pub open spec fn listeners_view(listeners: Seq<DOMEventListener>) -> Seq<ListenerModel> {
    Seq::new(listeners.len(), |i: int| listeners[i]@)
}

/// The event bindings of an element, in the order in which they were given.
pub struct Events(Vec<DOMEventListener>);

impl View for Events {
    type V = Seq<ListenerModel>;

    closed spec fn view(&self) -> Seq<ListenerModel> {
        listeners_view(self.0@)
    }
}

impl DeepView for Events {
    type V = Seq<ListenerModel>;

    open spec fn deep_view(&self) -> Seq<ListenerModel> {
        self@
    }
}

impl Events {
    /// The bindings, in the order given.
    pub fn new(listeners: Vec<DOMEventListener>) -> (events: Events)
        ensures
            events@ == listeners_view(listeners@),
    {
        Events(listeners)
    }

    /// The number of bindings.
    pub fn len(&self) -> (n: usize)
        ensures
            n == self@.len(),
    {
        self.0.len()
    }

    /// Two sets of bindings always count as the same: callbacks cannot be
    /// compared.
    pub fn same_as(&self, other: &Events) -> (same: bool)
        ensures
            same,
    {
        true
    }

    /// Whether every binding can still be attached.
    pub fn is_fresh(&self) -> (fresh: bool)
        ensures
            fresh == all_fresh(self@),
    {
        let n = self.0.len();
        let mut i: usize = 0;
        while i < n
            invariant
                i <= n,
                n == self.0@.len(),
                forall|j: int| 0 <= j < i ==> crate::model::is_fresh(#[trigger] self@[j]),
            decreases n - i,
        {
            if !self.0[i].is_fresh() {
                assert(!crate::model::is_fresh(self@[i as int]));
                return false;
            }
            i += 1;
        }
        true
    }

    /// The bindings as they were described: each with its event and its
    /// callback, none ever attached.
    pub fn renewed(&self) -> (out: Events)
        ensures
            out@ == all_renewed(self@),
    {
        let n = self.0.len();
        let mut fresh: Vec<DOMEventListener> = Vec::new();
        let mut i: usize = 0;
        while i < n
            invariant
                i <= n,
                n == self.0@.len(),
                fresh@.len() == i,
                forall|j: int| 0 <= j < i ==> (#[trigger] fresh@[j])@ == crate::model::renewed(self.0@[j]@),
            decreases n - i,
        {
            let binding = &self.0[i];
            fresh.push(DOMEventListener::new(binding.event_type.as_str(), binding.callback));
            i += 1;
        }
        let out = Events(fresh);
        assert(out@ =~= all_renewed(self@));
        out
    }

    /// Detaches every binding of `previous`, if there is one, and attaches
    /// every binding of this set to `node`, first to last. Only bindings
    /// that were never attached can be: a binding is attached once.
    pub fn patch(self, target: &mut Target, node: Handle, previous: Option<Events>) -> (out: Events)
        requires
            all_fresh(self@),
            previous matches Some(old_events) ==> all_attached(old_events@),
        ensures
            events_attached_from(out@, self@),
            final(target)@ == old(target)@ + events_effects(previous.deep_view(), out@, node),
            final(target).depth() == old(target).depth(),
            final(target).request_flag() == old(target).request_flag(),
            crate::target::numbered(old(target)@) ==> crate::target::numbered(final(target)@),
    {
        let ghost detached = match previous.deep_view() {
            Some(before) => detach_effects(before, before.len() as int),
            None => crate::model::none_effects(),
        };
        match previous {
            Some(old_events) => old_events.remove(target),
            None => {
                assert(target@ =~= old(target)@ + detached);
            },
        }
        let n = self.0.len();
        let mut attached: Vec<DOMEventListener> = Vec::new();
        let mut i: usize = 0;
        assert(target@ =~= old(target)@ + detached + attach_effects(listeners_view(attached@), node, 0));
        while i < n
            invariant
                i <= n,
                n == self.0@.len(),
                attached@.len() == i,
                forall|j: int|
                    0 <= j < i ==> (#[trigger] attached@[j])@.event_type == self.0@[j]@.event_type
                        && attached@[j]@.callback == self.0@[j]@.callback && attached@[j]@.handle is Some
                        && attached@[j]@.spent,
                target@ == old(target)@ + detached + attach_effects(listeners_view(attached@), node, i as int),
                target.depth() == old(target).depth(),
                target.request_flag() == old(target).request_flag(),
                crate::target::numbered(old(target)@) ==> crate::target::numbered(target@),
            decreases n - i,
        {
            let binding = &self.0[i];
            let listener = target.add_event_listener(node, binding.event_type.as_str(), binding.callback);
            let ghost before = listeners_view(attached@);
            attached.push(
                DOMEventListener {
                    event_type: binding.event_type.clone(),
                    callback: binding.callback,
                    listener_handle: Some(listener),
                    spent: true,
                },
            );
            proof {
                let after = listeners_view(attached@);
                assert(after.len() == i + 1);
                assert(forall|j: int| 0 <= j < i ==> after[j] == before[j]);
                lemma_attach_prefix(before, after, node, i as int);
                assert(target@ =~= old(target)@ + detached + attach_effects(after, node, i + 1));
            }
            i += 1;
        }
        let out = Events(attached);
        proof {
            assert(out@.len() == self@.len());
            assert forall|j: int| 0 <= j < out@.len() implies (#[trigger] out@[j]).event_type == self@[j].event_type
                && out@[j].callback == self@[j].callback && out@[j].handle is Some && out@[j].spent by {
                assert(attached@[j]@.handle is Some);
            }
            assert(target@ =~= old(target)@ + events_effects(previous.deep_view(), out@, node));
        }
        out
    }

    /// Detaches every binding, first to last.
    pub fn remove(self, target: &mut Target)
        requires
            all_attached(self@),
        ensures
            final(target)@ == old(target)@ + detach_effects(self@, self@.len() as int),
            final(target).depth() == old(target).depth(),
            final(target).request_flag() == old(target).request_flag(),
            crate::target::numbered(old(target)@) ==> crate::target::numbered(final(target)@),
    {
        let n = self.0.len();
        let mut i: usize = 0;
        assert(target@ =~= old(target)@ + detach_effects(self@, 0));
        while i < n
            invariant
                i <= n,
                n == self.0@.len(),
                all_attached(self@),
                target@ == old(target)@ + detach_effects(self@, i as int),
                target.depth() == old(target).depth(),
                target.request_flag() == old(target).request_flag(),
                crate::target::numbered(old(target)@) ==> crate::target::numbered(target@),
            decreases n - i,
        {
            assert(self@[i as int].handle is Some);
            match self.0[i].listener_handle {
                Some(listener) => target.remove_event_listener(listener),
                None => vstd::pervasive::unreached(),
            }
            assert(target@ =~= old(target)@ + detach_effects(self@, i + 1));
            i += 1;
        }
    }
}

/// Attaching a prefix of the listeners does not look at what comes after it.
pub proof fn lemma_attach_prefix(a: Seq<ListenerModel>, b: Seq<ListenerModel>, node: Handle, n: int)
    requires
        0 <= n <= a.len(),
        n <= b.len(),
        forall|j: int| 0 <= j < n ==> a[j] == b[j],
    ensures
        attach_effects(a, node, n) == attach_effects(b, node, n),
    decreases n,
{
    if n > 0 {
        lemma_attach_prefix(a, b, node, n - 1);
    }
}

impl PartialEq for Events {
    fn eq(&self, other: &Events) -> (same: bool) {
        self.same_as(other)
    }
}

impl vstd::std_specs::cmp::PartialEqSpecImpl for Events {
    open spec fn obeys_eq_spec() -> bool {
        true
    }

    open spec fn eq_spec(&self, other: &Events) -> bool {
        true
    }
}

impl Eq for Events {

}

} // verus!
