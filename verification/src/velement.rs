//! Element nodes.

use crate::attributes::Attributes;
use crate::attributes::ClassString;
use crate::attributes::collected;
use crate::attributes::pairs_view;
use crate::attributes::patch_attrs;
use crate::attributes::patch_class;
use crate::events::DOMEventListener;
use crate::events::Events;
use crate::model::ElementModel;
use crate::model::option_size;
use crate::model::same;
use crate::model::size;
use crate::model::Tree;
use crate::patching::child_is_patch_of;
use crate::patching::child_patch_effects;
use crate::patching::class_name;
use crate::patching::element_create_effects;
use crate::patching::element_is_patch_of;
use crate::patching::element_patch_effects;
use crate::patching::is_render_of;
use crate::patching::is_served;
use crate::patching::is_unrendered;
use crate::patching::lookup;
use crate::patching::render_effects;
use crate::patching::without;
use crate::target::DEFAULT_DEPTH;
use crate::target::Handle;
use crate::target::Target;
use crate::traits::RenderToString;
use crate::traits::ServerRender;
use crate::vnode::VNode;
use std::cell::Cell;
use std::rc::Rc;
use vstd::prelude::*;
use vstd::string::StringExecFns;

verus! {

/// An element: a tag, a class, attributes, one child at most, event
/// bindings, and the target's element once attached.
pub struct VElement {
    tag: String,
    class: Option<ClassString>,
    attrs: Option<Attributes>,
    child: Option<Box<VNode>>,
    is_self_closing: bool,
    events: Events,
    dom_ref: Option<Handle>,
}

impl View for VElement {
    type V = ElementModel;

    closed spec fn view(&self) -> ElementModel
        decreases self,
    {
        ElementModel {
            tag: self.tag@,
            class: self.class.deep_view(),
            attrs: self.attrs.deep_view(),
            child: match self.child {
                Some(child) => Some(Box::new((*child)@)),
                None => None,
            },
            self_closing: self.is_self_closing,
            events: self.events@,
            handle: self.dom_ref,
        }
    }
}

impl DeepView for VElement {
    type V = ElementModel;

    open spec fn deep_view(&self) -> ElementModel {
        self@
    }
}

/// The model of an optional child.
pub open spec fn child_view(child: Option<VNode>) -> Option<Box<Tree>> {
    match child {
        Some(node) => Some(Box::new(node@)),
        None => None,
    }
}

impl VElement {
    /// An element that is attached to nothing and has no event bindings.
    pub fn new(
        tag: String,
        class: Option<ClassString>,
        attrs: Option<Attributes>,
        child: Option<VNode>,
        is_self_closing: bool,
    ) -> (element: VElement)
        ensures
            element@ == (ElementModel {
                tag: tag@,
                class: class.deep_view(),
                attrs: attrs.deep_view(),
                child: child_view(child),
                self_closing: is_self_closing,
                events: Seq::empty(),
                handle: None,
            }),
    {
        let element = VElement {
            tag,
            class,
            attrs,
            child: match child {
                Some(node) => Some(Box::new(node)),
                None => None,
            },
            is_self_closing,
            events: Events::new(Vec::new()),
            dom_ref: None,
        };
        assert(element@.events =~= Seq::empty());
        element
    }

    /// Whether every component below the element that has rendered has done
    /// so in its first pass.
    pub fn is_first_pass(&self) -> (first: bool)
        ensures
            first == crate::document::is_first_pass(Tree::Element(self@)),
        decreases crate::model::size(Tree::Element(self@)), 0nat,
    {
        match &self.child {
            Some(child) => child.is_first_pass(),
            None => true,
        }
    }

    /// No name occurs twice among the attributes, and what stands below the
    /// element is well formed in turn.
    pub fn well_formed_throughout(&self)
        ensures
            crate::laws::is_well_formed(Tree::Element(self@)),
        decreases crate::model::size(Tree::Element(self@)), 0nat,
    {
        match &self.attrs {
            Some(attrs) => attrs.distinct(),
            None => {},
        }
        match &self.child {
            Some(child) => child.well_formed_throughout(),
            None => {},
        }
    }

    /// The target's element, once attached.
    pub fn dom_ref(&self) -> (handle: Option<Handle>)
        ensures
            handle == self@.handle,
    {
        self.dom_ref
    }

    /// Gives the element these event bindings in place of those it had.
    pub fn set_events(&mut self, events: Vec<DOMEventListener>)
        ensures
            final(self)@ == (ElementModel { events: crate::events::listeners_view(events@), ..old(self)@ }),
    {
        self.events = Events::new(events);
    }

    /// Appends the element's markup to `out`.
    pub fn write_html(&self, out: &mut String)
        ensures
            final(out)@ == old(out)@ + Tree::Element(self@).html(),
        decreases crate::model::size(Tree::Element(self@)), 0nat,
    {
        out.append("<");
        out.append(self.tag.as_str());
        match &self.class {
            Some(class) => class.write_html(out),
            None => {},
        }
        match &self.attrs {
            Some(attrs) => attrs.write_html(out),
            None => {},
        }
        out.append(">");
        if !self.is_self_closing {
            match &self.child {
                Some(child) => child.write_html(out),
                None => {},
            }
            out.append("</");
            out.append(self.tag.as_str());
            out.append(">");
        }
        assert(out@ =~= old(out)@ + Tree::Element(self@).html());
    }

    /// Whether two elements are the same, part by part.
    pub fn same_as(&self, other: &VElement) -> (equal: bool)
        ensures
            equal == same(Tree::Element(self@), Tree::Element(other@)),
        decreases crate::model::size(Tree::Element(self@)), 0nat,
    {
        self.tag == other.tag && (match (&self.class, &other.class) {
            (Some(mine), Some(theirs)) => mine.same_as(theirs),
            (None, None) => true,
            _ => false,
        }) && (match (&self.attrs, &other.attrs) {
            (Some(mine), Some(theirs)) => mine.same_as(theirs),
            (None, None) => true,
            _ => false,
        }) && (match (&self.child, &other.child) {
            (Some(mine), Some(theirs)) => mine.same_as(theirs),
            (None, None) => true,
            _ => false,
        }) && self.is_self_closing == other.is_self_closing && self.events.same_as(&other.events)
            && self.dom_ref == other.dom_ref
    }

    /// The target's element.
    pub fn dom_node(&self) -> (node: Option<Handle>)
        ensures
            node == Tree::Element(self@).dom_node(),
    {
        self.dom_ref
    }

    /// Re-inserts the element at the end of `parent`.
    pub fn move_to_last(&self, target: &mut Target, parent: Handle)
        requires
            Tree::Element(self@).is_attached(),
        ensures
            final(target)@ == old(target)@ + Tree::Element(self@).move_to_last_effects(parent),
            final(target).depth() == old(target).depth(),
            final(target).request_flag() == old(target).request_flag(),
            crate::target::numbered(old(target)@) ==> crate::target::numbered(final(target)@),
    {
        match self.dom_ref {
            Some(node) => target.append_child(parent, node),
            None => vstd::pervasive::unreached(),
        }
        assert(target@ =~= old(target)@ + Tree::Element(self@).move_to_last_effects(parent));
    }

    /// Re-inserts the element before `next` under `parent`.
    pub fn move_before(&self, target: &mut Target, parent: Handle, next: Handle)
        requires
            Tree::Element(self@).is_attached(),
        ensures
            final(target)@ == old(target)@ + Tree::Element(self@).move_before_effects(parent, next),
            final(target).depth() == old(target).depth(),
            final(target).request_flag() == old(target).request_flag(),
            crate::target::numbered(old(target)@) ==> crate::target::numbered(final(target)@),
    {
        match self.dom_ref {
            Some(node) => target.insert_before(parent, node, next),
            None => vstd::pervasive::unreached(),
        }
        assert(target@ =~= old(target)@ + Tree::Element(self@).move_before_effects(parent, next));
    }

    /// Detaches the element's listeners, takes its child out of it, and then
    /// takes the element out of `parent`.
    pub fn remove(self, target: &mut Target, parent: Handle)
        requires
            Tree::Element(self@).is_attached(),
        ensures
            self.is_torn_down(),
            final(target)@ == old(target)@ + Tree::Element(self@).remove_effects(parent),
            final(target).depth() == old(target).depth(),
            final(target).request_flag() == old(target).request_flag(),
            crate::target::numbered(old(target)@) ==> crate::target::numbered(final(target)@),
        decreases crate::model::size(Tree::Element(self@)), 0nat,
    {
        let ghost model = self@;
        let VElement { events, child, dom_ref, .. } = self;
        let node = match dom_ref {
            Some(node) => node,
            None => vstd::pervasive::unreached(),
        };
        events.remove(target);
        match child {
            Some(child) => {
                let child: VNode = *child;
                child.remove(target, node);
            },
            None => {},
        }
        target.remove_child(parent, node);
        assert(target@ =~= old(target)@ + Tree::Element(model).remove_effects(parent));
    }
}

/// The model of an optional boxed child.
pub open spec fn boxed_view(child: Option<Box<VNode>>) -> Option<Box<Tree>> {
    match child {
        Some(node) => Some(Box::new((*node)@)),
        None => None,
    }
}

/// What the patch of a child against the previous child did behind the
/// record: a child that is gone was torn down.
pub open spec fn child_is_patched(
    out: Option<Box<VNode>>,
    new: Option<Box<VNode>>,
    previous: Option<Box<VNode>>,
    requests: Rc<Cell<bool>>,
    depth: nat,
) -> bool
    decreases out, 0nat,
{
    match (out, new) {
        (Some(child), Some(fresh)) => crate::vnode::is_patched(
            *child,
            *fresh,
            match previous {
                Some(old) => Some(*old),
                None => None,
            },
            requests,
            depth,
        ),
        (None, None) => match previous {
            Some(old) => crate::vnode::is_torn_down(*old),
            None => true,
        },
        _ => true,
    }
}

/// The size of an optional boxed child.
pub open spec fn boxed_size(child: Option<Box<VNode>>) -> nat {
    match child {
        Some(node) => size((*node)@),
        None => 0,
    }
}

/// Brings the child of the element `node` from `previous` to `new`: a child
/// is patched under `node`, and a child that is gone is taken out of it.
pub fn patch_child(new: Option<Box<VNode>>, target: &mut Target, node: Handle, previous: Option<Box<VNode>>) -> (out:
    Option<Box<VNode>>)
    requires
        new matches Some(child) ==> crate::model::is_unbound((*child)@),
        previous matches Some(prior) ==> (*prior)@.is_attached(),
    ensures
        child_is_patch_of(boxed_view(out), boxed_view(new), boxed_view(previous), old(target).depth()),
        child_is_patched(out, new, previous, old(target).request_flag(), old(target).depth()),
        final(target)@ == old(target)@ + child_patch_effects(
            boxed_view(out),
            boxed_view(new),
            boxed_view(previous),
            node,
        ),
        final(target).depth() == old(target).depth(),
        final(target).request_flag() == old(target).request_flag(),
        crate::target::numbered(old(target)@) ==> crate::target::numbered(final(target)@),
        out matches Some(child) ==> (*child)@.is_attached(),
    decreases old(target).depth(), boxed_size(new) + boxed_size(previous), 4nat,
{
    match new {
        Some(child) => {
            let child: VNode = *child;
            let old_child: Option<VNode> = match previous {
                Some(prior) => Some(*prior),
                None => None,
            };
            let out = child.patch(target, node, None, old_child);
            Some(Box::new(out))
        },
        None => {
            match previous {
                Some(prior) => {
                    let prior: VNode = *prior;
                    prior.remove(target, node);
                },
                None => {
                    assert(target@ =~= old(target)@ + child_patch_effects(None, None, None, node));
                },
            }
            None
        },
    }
}

impl VElement {
    /// Brings the target up to date with this element. A previous element of
    /// the same tag keeps its node and is brought up to date part by part;
    /// one of another tag is taken out and this element made anew.
    pub fn patch(self, target: &mut Target, parent: Handle, next: Option<Handle>, previous: Option<VElement>) -> (out:
        VElement)
        requires
            crate::model::is_unbound(Tree::Element(self@)),
            previous matches Some(prior) ==> Tree::Element(prior@).is_attached(),
        ensures
            element_is_patch_of(out@, self@, previous.deep_view(), old(target).depth()),
            out.is_patched(self, previous, old(target).request_flag(), old(target).depth()),
            final(target)@ == old(target)@ + element_patch_effects(
                out@,
                self@,
                previous.deep_view(),
                parent,
                next,
            ),
            final(target).depth() == old(target).depth(),
            final(target).request_flag() == old(target).request_flag(),
            crate::target::numbered(old(target)@) ==> crate::target::numbered(final(target)@),
            Tree::Element(out@).is_attached(),
        decreases
                old(target).depth(),
                size(Tree::Element(self@)) + option_size(
                    match previous {
                        Some(prior) => Some(Tree::Element(prior@)),
                        None => None,
                    },
                ),
                2nat,
    {
        match previous {
            Some(prior) => {
                if prior.tag == self.tag {
                    let ghost new_model = self@;
                    let ghost old_model = prior@;
                    let VElement {
                        class: old_class,
                        attrs: old_attrs,
                        child: old_child,
                        events: old_events,
                        dom_ref: old_ref,
                        ..
                    } = prior;
                    let node = match old_ref {
                        Some(node) => node,
                        None => vstd::pervasive::unreached(),
                    };
                    let VElement { tag, class, attrs, child, is_self_closing, events, .. } = self;
                    let class = patch_class(class, target, node, old_class);
                    let attrs = patch_attrs(attrs, target, node, old_attrs);
                    let child = patch_child(child, target, node, old_child);
                    let events = events.patch(target, node, Some(old_events));
                    let out = VElement { tag, class, attrs, child, is_self_closing, events, dom_ref: Some(node) };
                    assert(target@ =~= old(target)@ + element_patch_effects(
                        out@,
                        new_model,
                        Some(old_model),
                        parent,
                        next,
                    ));
                    out
                } else {
                    let ghost old_model = prior@;
                    prior.remove(target, parent);
                    let out = create_new_dom_node(self, target, parent, next);
                    assert(target@ =~= old(target)@ + element_patch_effects(
                        out@,
                        self@,
                        Some(old_model),
                        parent,
                        next,
                    ));
                    out
                }
            },
            None => create_new_dom_node(self, target, parent, next),
        }
    }

    /// Passes over the element's child.
    pub fn dom_render(self, target: &mut Target, parent: Handle, next: Option<Handle>) -> (out: VElement)
        ensures
            is_render_of(Tree::Element(out@), Tree::Element(self@), old(target).depth()),
            out.is_passed(self, old(target).request_flag(), old(target).depth()),
            final(target)@ == old(target)@ + render_effects(
                Tree::Element(out@),
                Tree::Element(self@),
                parent,
                next,
            ),
            final(target).depth() == old(target).depth(),
            final(target).request_flag() == old(target).request_flag(),
            crate::target::numbered(old(target)@) ==> crate::target::numbered(final(target)@),
            Tree::Element(self@).is_attached() ==> Tree::Element(out@).is_attached(),
        decreases old(target).depth(), size(Tree::Element(self@)), 2nat,
    {
        let ghost model = self@;
        let VElement { tag, class, attrs, child, is_self_closing, events, dom_ref } = self;
        let child = match child {
            Some(child) => {
                let child: VNode = *child;
                Some(Box::new(child.dom_render(target, parent, next)))
            },
            None => None,
        };
        let out = VElement { tag, class, attrs, child, is_self_closing, events, dom_ref };
        assert(target@ =~= old(target)@ + render_effects(Tree::Element(out@), Tree::Element(model), parent, next));
        out
    }
}

impl VElement {
    /// What the patch of `new` against `previous` that left this element
    /// did behind the record: an element of another tag was torn down, and
    /// the child was patched against the child of an element of the same
    /// tag.
    pub closed spec fn is_patched(
        self,
        new: VElement,
        previous: Option<VElement>,
        requests: Rc<Cell<bool>>,
        depth: nat,
    ) -> bool
        decreases self, 0nat,
    {
        match previous {
            Some(old) => if old.tag@ == new.tag@ {
                child_is_patched(self.child, new.child, old.child, requests, depth)
            } else {
                old.is_torn_down() && child_is_patched(self.child, new.child, None, requests, depth)
            },
            None => child_is_patched(self.child, new.child, None, requests, depth),
        }
    }

    /// What the teardown of the element did behind the record: what it did
    /// below the element.
    pub closed spec fn is_torn_down(self) -> bool
        decreases self, 0nat,
    {
        match self.child {
            Some(child) => crate::vnode::is_torn_down(*child),
            None => true,
        }
    }

    /// What a pass over the element `before` that left this one did behind
    /// the record: what it did below the element.
    pub closed spec fn is_passed(self, before: VElement, requests: Rc<Cell<bool>>, depth: nat) -> bool
        decreases self, 0nat,
    {
        match (self.child, before.child) {
            (Some(child), Some(old)) => crate::vnode::is_passed(*child, *old, requests, depth),
            _ => true,
        }
    }

    /// Whether every event binding of the element and of what stands below
    /// it can still be attached.
    pub fn is_unbound_throughout(&self) -> (unbound: bool)
        ensures
            unbound == crate::model::is_unbound(Tree::Element(self@)),
        decreases size(Tree::Element(self@)), 0nat,
    {
        self.events.is_fresh() && match &self.child {
            Some(child) => child.is_unbound_throughout(),
            None => true,
        }
    }

    /// The element as it was described: none of its event bindings, nor of
    /// those below it, was ever attached.
    pub fn renewed(self) -> (out: VElement)
        ensures
            Tree::Element(out@) == crate::model::unbound(Tree::Element(self@)),
        decreases size(Tree::Element(self@)), 0nat,
    {
        let VElement { tag, class, attrs, child, is_self_closing, events, dom_ref } = self;
        let child = match child {
            Some(child) => {
                let child: VNode = *child;
                Some(Box::new(child.renewed()))
            },
            None => None,
        };
        let events = events.renewed();
        VElement { tag, class, attrs, child, is_self_closing, events, dom_ref }
    }

    /// Whether no component below the element has an instance or has
    /// rendered, with a target or without.
    pub fn is_unrendered_throughout(&self) -> (unrendered: bool)
        ensures
            unrendered == is_unrendered(Tree::Element(self@)),
        decreases size(Tree::Element(self@)), 0nat,
    {
        match &self.child {
            Some(child) => child.is_unrendered_throughout(),
            None => true,
        }
    }

    /// Renders the components below the element without a target. None of
    /// them may have rendered before.
    pub fn server_rendered(self, depth: usize) -> (out: VElement)
        requires
            is_unrendered(Tree::Element(self@)),
        ensures
            is_served(Tree::Element(out@), Tree::Element(self@), depth as nat),
        decreases depth, size(Tree::Element(self@)), 2nat,
    {
        let VElement { tag, class, attrs, child, is_self_closing, events, dom_ref } = self;
        let child = match child {
            Some(child) => {
                let child: VNode = *child;
                Some(Box::new(child.server_rendered(depth)))
            },
            None => None,
        };
        VElement { tag, class, attrs, child, is_self_closing, events, dom_ref }
    }
}

/// Makes the element anew: creates its node, fills it part by part, and then
/// places it under `parent`.
pub fn create_new_dom_node(vel: VElement, target: &mut Target, parent: Handle, next: Option<Handle>) -> (out:
    VElement)
    requires
        crate::model::is_unbound(Tree::Element(vel@)),
    ensures
        out.is_patched(vel, None, old(target).request_flag(), old(target).depth()),
        element_is_patch_of(out@, vel@, None, old(target).depth()),
        final(target)@ == old(target)@ + element_create_effects(out@, vel@, parent, next),
        final(target).depth() == old(target).depth(),
        final(target).request_flag() == old(target).request_flag(),
        crate::target::numbered(old(target)@) ==> crate::target::numbered(final(target)@),
        Tree::Element(out@).is_attached(),
    decreases old(target).depth(), size(Tree::Element(vel@)), 1nat,
{
    let ghost model = vel@;
    let VElement { tag, class, attrs, child, is_self_closing, events, .. } = vel;
    let node = target.create_element(tag.as_str());
    let class = patch_class(class, target, node, None);
    let attrs = patch_attrs(attrs, target, node, None);
    let child = patch_child(child, target, node, None);
    let events = events.patch(target, node, None);
    target.place(parent, node, next);
    let out = VElement { tag, class, attrs, child, is_self_closing, events, dom_ref: Some(node) };
    assert(target@ =~= old(target)@ + element_create_effects(out@, model, parent, next));
    out
}

/// The element that a tag, pairs of attribute names and values, a child and
/// a self-closing flag describe. The pairs are put in first to last; the value
/// under `class` becomes the element's class, and what is left its attributes.
pub open spec fn described(
    tag: Seq<char>,
    pairs: Option<Seq<(Seq<char>, Seq<char>)>>,
    child: Option<VNode>,
    self_closing: bool,
) -> ElementModel {
    let entries = match pairs {
        Some(pairs) => collected(pairs, pairs.len() as int),
        None => Seq::empty(),
    };
    ElementModel {
        tag,
        class: lookup(entries, class_name()),
        attrs: if without(entries, class_name()).len() == 0 {
            None
        } else {
            Some(without(entries, class_name()))
        },
        child: child_view(child),
        self_closing,
        events: Seq::empty(),
        handle: None,
    }
}

/// Builds the element that the parts describe.
pub fn describe(tag: &str, pairs: Option<Vec<(&str, &str)>>, child: Option<VNode>, is_self_closing: bool) -> (element:
    VElement)
    ensures
        element@ == described(
            tag@,
            match pairs {
                Some(pairs) => Some(pairs_view(pairs@)),
                None => None,
            },
            child,
            is_self_closing,
        ),
{
    match pairs {
        Some(pairs) => {
            let (class, attrs) = Attributes::from(pairs).split_into_class_and_attrs();
            VElement::new(tag.to_owned(), class, attrs, child, is_self_closing)
        },
        None => {
            proof {
                crate::ordered::lemma_find_absent(
                    crate::ordered::names(Seq::<(Seq<char>, Seq<char>)>::empty()),
                    class_name(),
                );
            }
            VElement::new(tag.to_owned(), None, None, child, is_self_closing)
        },
    }
}

impl<'a> From<(&'a str, Vec<(&'a str, &'a str)>, VNode, bool)> for VElement {
    fn from(item: (&'a str, Vec<(&'a str, &'a str)>, VNode, bool)) -> (element: VElement)
        ensures
            element@ == described(item.0@, Some(pairs_view(item.1@)), Some(item.2), item.3),
    {
        describe(item.0, Some(item.1), Some(item.2), item.3)
    }
}

impl<'a> vstd::std_specs::convert::FromSpecImpl<(&'a str, Vec<(&'a str, &'a str)>, VNode, bool)> for VElement {
    open spec fn obeys_from_spec() -> bool {
        false
    }

    open spec fn from_spec(v: (&'a str, Vec<(&'a str, &'a str)>, VNode, bool)) -> VElement {
        arbitrary()
    }
}

impl<'a> From<(&'a str, Vec<(&'a str, &'a str)>, VNode)> for VElement {
    fn from(item: (&'a str, Vec<(&'a str, &'a str)>, VNode)) -> (element: VElement)
        ensures
            element@ == described(item.0@, Some(pairs_view(item.1@)), Some(item.2), false),
    {
        describe(item.0, Some(item.1), Some(item.2), false)
    }
}

impl<'a> vstd::std_specs::convert::FromSpecImpl<(&'a str, Vec<(&'a str, &'a str)>, VNode)> for VElement {
    open spec fn obeys_from_spec() -> bool {
        false
    }

    open spec fn from_spec(v: (&'a str, Vec<(&'a str, &'a str)>, VNode)) -> VElement {
        arbitrary()
    }
}

impl<'a> From<(&'a str, Vec<(&'a str, &'a str)>, bool)> for VElement {
    fn from(item: (&'a str, Vec<(&'a str, &'a str)>, bool)) -> (element: VElement)
        ensures
            element@ == described(item.0@, Some(pairs_view(item.1@)), None, item.2),
    {
        describe(item.0, Some(item.1), None, item.2)
    }
}

impl<'a> vstd::std_specs::convert::FromSpecImpl<(&'a str, Vec<(&'a str, &'a str)>, bool)> for VElement {
    open spec fn obeys_from_spec() -> bool {
        false
    }

    open spec fn from_spec(v: (&'a str, Vec<(&'a str, &'a str)>, bool)) -> VElement {
        arbitrary()
    }
}

impl<'a> From<(&'a str, Vec<(&'a str, &'a str)>)> for VElement {
    fn from(item: (&'a str, Vec<(&'a str, &'a str)>)) -> (element: VElement)
        ensures
            element@ == described(item.0@, Some(pairs_view(item.1@)), None, false),
    {
        describe(item.0, Some(item.1), None, false)
    }
}

impl<'a> vstd::std_specs::convert::FromSpecImpl<(&'a str, Vec<(&'a str, &'a str)>)> for VElement {
    open spec fn obeys_from_spec() -> bool {
        false
    }

    open spec fn from_spec(v: (&'a str, Vec<(&'a str, &'a str)>)) -> VElement {
        arbitrary()
    }
}

impl<'a> From<(&'a str, bool)> for VElement {
    fn from(item: (&'a str, bool)) -> (element: VElement)
        ensures
            element@ == described(item.0@, None, None, item.1),
    {
        describe(item.0, None, None, item.1)
    }
}

impl<'a> vstd::std_specs::convert::FromSpecImpl<(&'a str, bool)> for VElement {
    open spec fn obeys_from_spec() -> bool {
        false
    }

    open spec fn from_spec(v: (&'a str, bool)) -> VElement {
        arbitrary()
    }
}

impl<'a> From<(&'a str, ())> for VElement {
    fn from(item: (&'a str, ())) -> (element: VElement)
        ensures
            element@ == described(item.0@, None, None, false),
    {
        describe(item.0, None, None, false)
    }
}

impl<'a> vstd::std_specs::convert::FromSpecImpl<(&'a str, ())> for VElement {
    open spec fn obeys_from_spec() -> bool {
        false
    }

    open spec fn from_spec(v: (&'a str, ())) -> VElement {
        arbitrary()
    }
}

impl<'a> From<(&'a str, VNode, bool)> for VElement {
    fn from(item: (&'a str, VNode, bool)) -> (element: VElement)
        ensures
            element@ == described(item.0@, None, Some(item.1), item.2),
    {
        describe(item.0, None, Some(item.1), item.2)
    }
}

impl<'a> vstd::std_specs::convert::FromSpecImpl<(&'a str, VNode, bool)> for VElement {
    open spec fn obeys_from_spec() -> bool {
        false
    }

    open spec fn from_spec(v: (&'a str, VNode, bool)) -> VElement {
        arbitrary()
    }
}

impl<'a> From<(&'a str, VNode)> for VElement {
    fn from(item: (&'a str, VNode)) -> (element: VElement)
        ensures
            element@ == described(item.0@, None, Some(item.1), false),
    {
        describe(item.0, None, Some(item.1), false)
    }
}

impl<'a> vstd::std_specs::convert::FromSpecImpl<(&'a str, VNode)> for VElement {
    open spec fn obeys_from_spec() -> bool {
        false
    }

    open spec fn from_spec(v: (&'a str, VNode)) -> VElement {
        arbitrary()
    }
}

impl VElement {
    /// The element's markup.
    pub fn to_string(&self) -> (html: String)
        ensures
            html@ == Tree::Element(self@).html(),
    {
        let mut html = String::new();
        self.write_html(&mut html);
        assert(html@ =~= Tree::Element(self@).html());
        html
    }
}

impl ServerRender for VElement {
    open spec fn servable(&self) -> bool {
        is_unrendered(Tree::Element(self@))
    }

    open spec fn served(out: Self, before: Self) -> bool {
        is_served(Tree::Element(out@), Tree::Element(before@), DEFAULT_DEPTH as nat)
    }

    /// Renders the components below the element without a target.
    fn server_render(&mut self) {
        let mut element = VElement::new(String::new(), None, None, None, false);
        core::mem::swap(self, &mut element);
        let mut element = element.server_rendered(DEFAULT_DEPTH);
        core::mem::swap(self, &mut element);
    }
}

impl RenderToString for VElement {
    open spec fn markup(&self) -> Seq<char> {
        Tree::Element(self@).html()
    }

    fn render_to_string(&mut self) -> (html: String) {
        self.server_render();
        self.to_string()
    }
}

impl PartialEq for VElement {
    fn eq(&self, other: &VElement) -> (equal: bool) {
        self.same_as(other)
    }
}

impl vstd::std_specs::cmp::PartialEqSpecImpl for VElement {
    open spec fn obeys_eq_spec() -> bool {
        true
    }

    open spec fn eq_spec(&self, other: &VElement) -> bool {
        same(Tree::Element(self@), Tree::Element(other@))
    }
}

impl Eq for VElement {

}

} // verus!
