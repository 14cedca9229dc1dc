//! The node of a tree: a text, an element, a keyed list or a component.

use crate::model::option_size;
use crate::model::removal_effects;
use crate::model::same;
use crate::model::size;
use crate::model::Tree;
use crate::patching::is_patch_of;
use crate::patching::is_render_of;
use crate::patching::is_served;
use crate::patching::is_unrendered;
use crate::patching::patch_effects;
use crate::patching::render_effects;
use crate::target::DEFAULT_DEPTH;
use crate::target::Handle;
use crate::target::Target;
use crate::traits::RenderToString;
use crate::traits::ServerRender;
use crate::vcomponent::VComponent;
use crate::velement::VElement;
use crate::vlist::VList;
use crate::vtext::VText;
use std::cell::Cell;
use std::rc::Rc;
use vstd::prelude::*;

verus! {

/// A node of a tree.
pub enum VNode {
    Text(VText),
    Element(VElement),
    List(VList),
    Component(VComponent),
}

impl View for VNode {
    type V = Tree;

    open spec fn view(&self) -> Tree
        decreases self,
    {
        match self {
            VNode::Text(text) => Tree::Text(text@),
            VNode::Element(element) => Tree::Element(element@),
            VNode::List(list) => Tree::List(list@),
            VNode::Component(component) => Tree::Component(component@),
        }
    }
}

/// What a pass over the attached tree `before` that left `out` did behind
/// the record, with `requests` the flag on which the target is asked for a
/// pass and `depth` the nesting that the target allowed. Of every component
/// that the pass came to, the flag was looked at; the component came out as
/// one that held what the flag held comes out of a pass; its instance was
/// told what happened to it; and where the component was passed through,
/// the same holds of what it rendered.
pub open spec fn is_passed(out: VNode, before: VNode, requests: Rc<Cell<bool>>, depth: nat) -> bool
    decreases out, 0nat,
{
    match (out, before) {
        (VNode::Element(element), VNode::Element(old)) => element.is_passed(old, requests, depth),
        (VNode::List(list), VNode::List(old)) => list.is_passed(old, requests, depth),
        (VNode::Component(component), VNode::Component(old)) => component.is_passed(old, requests, depth),
        _ => true,
    }
}

/// What the patch of `new` against `previous` that left `out` did behind
/// the record: what was there before and could not be patched against was
/// torn down, and every component that the patch came to went through a
/// pass, in the place of the previous one where that is of its type.
pub open spec fn is_patched(
    out: VNode,
    new: VNode,
    previous: Option<VNode>,
    requests: Rc<Cell<bool>>,
    depth: nat,
) -> bool
    decreases out, 0nat,
{
    match (out, new) {
        (VNode::Text(_), VNode::Text(_)) => match previous {
            Some(VNode::Text(_)) => true,
            Some(other) => is_torn_down(other),
            None => true,
        },
        (VNode::Element(element), VNode::Element(fresh)) => match previous {
            Some(VNode::Element(old)) => element.is_patched(fresh, Some(old), requests, depth),
            Some(other) => is_torn_down(other) && element.is_patched(fresh, None, requests, depth),
            None => element.is_patched(fresh, None, requests, depth),
        },
        (VNode::List(list), VNode::List(fresh)) => match previous {
            Some(VNode::List(old)) => list.is_patched(fresh, Some(old), requests, depth),
            Some(other) => is_torn_down(other) && list.is_patched(fresh, None, requests, depth),
            None => list.is_patched(fresh, None, requests, depth),
        },
        (VNode::Component(component), VNode::Component(fresh)) => match previous {
            Some(VNode::Component(old)) => component.is_patched(fresh, Some(old), requests, depth),
            Some(other) => is_torn_down(other) && component.is_patched(fresh, None, requests, depth),
            None => component.is_patched(fresh, None, requests, depth),
        },
        _ => true,
    }
}

/// What the patch of `new` against a node that shows as `old` did behind
/// the record.
pub open spec fn is_patched_against(
    out: VNode,
    new: VNode,
    old: Option<Tree>,
    requests: Rc<Cell<bool>>,
    depth: nat,
) -> bool
    decreases out, 1nat,
{
    exists|previous: Option<VNode>|
        #[trigger] shows_as(previous, old) && is_patched(out, new, previous, requests, depth)
}

/// The node that was there before, if any, shows as `old`.
pub open spec fn shows_as(previous: Option<VNode>, old: Option<Tree>) -> bool {
    previous.deep_view() == old
}

/// What the teardown of the tree did behind the record: the instance of
/// every mounted component of the tree was told that it is destroyed.
pub open spec fn is_torn_down(tree: VNode) -> bool
    decreases tree, 0nat,
{
    match tree {
        VNode::Text(_) => true,
        VNode::Element(element) => element.is_torn_down(),
        VNode::List(list) => list.is_torn_down(),
        VNode::Component(component) => component.is_torn_down(),
    }
}

impl DeepView for VNode {
    type V = Tree;

    open spec fn deep_view(&self) -> Tree {
        self@
    }
}

impl VNode {
    /// The node that `content` converts into.
    pub fn new<T: Into<VNode>>(content: T) -> (node: VNode)
        ensures
            call_ensures(<T as Into<VNode>>::into, (content,), node),
    {
        content.into()
    }

    /// Appends the node's markup to `out`.
    pub fn write_html(&self, out: &mut String)
        ensures
            final(out)@ == old(out)@ + self@.html(),
        decreases crate::model::size(self@), 1nat,
    {
        match self {
            VNode::Text(text) => text.write_html(out),
            VNode::Element(element) => element.write_html(out),
            VNode::List(list) => list.write_html(out),
            VNode::Component(component) => component.write_html(out),
        }
    }

    /// The node's markup.
    pub fn to_string(&self) -> (html: String)
        ensures
            html@ == self@.html(),
    {
        let mut html = String::new();
        self.write_html(&mut html);
        assert(html@ =~= self@.html());
        html
    }

    /// Whether two nodes are the same.
    pub fn same_as(&self, other: &VNode) -> (equal: bool)
        ensures
            equal == same(self@, other@),
        decreases crate::model::size(self@), 1nat,
    {
        match (self, other) {
            (VNode::Text(mine), VNode::Text(theirs)) => mine.same_as(theirs),
            (VNode::Element(mine), VNode::Element(theirs)) => mine.same_as(theirs),
            (VNode::List(mine), VNode::List(theirs)) => mine.same_as(theirs),
            (VNode::Component(mine), VNode::Component(theirs)) => mine.same_as(theirs),
            _ => false,
        }
    }

    /// The target's node that stands first for this node, if it has one.
    pub fn dom_node(&self) -> (node: Option<Handle>)
        ensures
            node == self@.dom_node(),
        decreases crate::model::size(self@), 1nat,
    {
        match self {
            VNode::Text(text) => text.dom_node(),
            VNode::Element(element) => element.dom_node(),
            VNode::List(list) => list.dom_node(),
            VNode::Component(component) => component.dom_node(),
        }
    }

    /// Moves the node to the end of `parent`.
    pub fn move_to_last(&self, target: &mut Target, parent: Handle)
        requires
            self@.is_attached(),
        ensures
            final(target)@ == old(target)@ + self@.move_to_last_effects(parent),
            final(target).depth() == old(target).depth(),
            final(target).request_flag() == old(target).request_flag(),
            crate::target::numbered(old(target)@) ==> crate::target::numbered(final(target)@),
        decreases crate::model::size(self@), 1nat,
    {
        match self {
            VNode::Text(text) => text.move_to_last(target, parent),
            VNode::Element(element) => element.move_to_last(target, parent),
            VNode::List(list) => list.move_to_last(target, parent),
            VNode::Component(component) => component.move_to_last(target, parent),
        }
    }

    /// Moves the node before `next` under `parent`.
    pub fn move_before(&self, target: &mut Target, parent: Handle, next: Handle)
        requires
            self@.is_attached(),
        ensures
            final(target)@ == old(target)@ + self@.move_before_effects(parent, next),
            final(target).depth() == old(target).depth(),
            final(target).request_flag() == old(target).request_flag(),
            crate::target::numbered(old(target)@) ==> crate::target::numbered(final(target)@),
        decreases crate::model::size(self@), 1nat,
    {
        match self {
            VNode::Text(text) => text.move_before(target, parent, next),
            VNode::Element(element) => element.move_before(target, parent, next),
            VNode::List(list) => list.move_before(target, parent, next),
            VNode::Component(component) => component.move_before(target, parent, next),
        }
    }

    /// Whether every component of the tree that has rendered has done so in
    /// its first pass: the tree was built where nothing was before.
    pub fn is_first_pass(&self) -> (first: bool)
        ensures
            first == crate::document::is_first_pass(self@),
        decreases crate::model::size(self@), 1nat,
    {
        match self {
            VNode::Text(_) => true,
            VNode::Element(element) => element.is_first_pass(),
            VNode::List(list) => list.is_first_pass(),
            VNode::Component(component) => component.is_first_pass(),
        }
    }

    /// In every set of attributes of the tree no name occurs twice, and
    /// every list of it has a key for each child and no key twice: a tree
    /// cannot be built otherwise.
    pub fn well_formed_throughout(&self)
        ensures
            crate::laws::is_well_formed(self@),
        decreases crate::model::size(self@), 1nat,
    {
        match self {
            VNode::Text(_) => {},
            VNode::Element(element) => element.well_formed_throughout(),
            VNode::List(list) => list.well_formed_throughout(),
            VNode::Component(component) => component.well_formed_throughout(),
        }
    }

    /// Takes the node and all below it out of `parent`. A component that a
    /// pass left out for want of depth has nothing in the target and is
    /// passed over.
    pub fn remove(self, target: &mut Target, parent: Handle)
        requires
            self@.is_attached(),
        ensures
            is_torn_down(self),
            final(target)@ == old(target)@ + self@.remove_effects(parent),
            final(target).depth() == old(target).depth(),
            final(target).request_flag() == old(target).request_flag(),
            crate::target::numbered(old(target)@) ==> crate::target::numbered(final(target)@),
        decreases crate::model::size(self@), 1nat,
    {
        match self {
            VNode::Text(text) => text.remove(target, parent),
            VNode::Element(element) => element.remove(target, parent),
            VNode::List(list) => list.remove(target, parent),
            VNode::Component(component) => {
                if component.is_mounted() {
                    component.remove(target, parent)
                } else {
                    proof {
                        component.unmounted_is_torn_down();
                    }
                    assert(target@ =~= old(target)@ + self@.remove_effects(parent));
                }
            },
        }
    }
}

impl VNode {
    /// Whether every event binding of the tree that a patch would attach
    /// can still be attached.
    pub fn is_unbound_throughout(&self) -> (unbound: bool)
        ensures
            unbound == crate::model::is_unbound(self@),
        decreases size(self@), 1nat,
    {
        match self {
            VNode::Text(_) => true,
            VNode::Element(element) => element.is_unbound_throughout(),
            VNode::List(list) => list.is_unbound_throughout(),
            VNode::Component(_) => true,
        }
    }

    /// The tree as it was described: none of the event bindings that a
    /// patch would attach was ever attached.
    pub fn renewed(self) -> (out: VNode)
        ensures
            out@ == crate::model::unbound(self@),
        decreases size(self@), 3nat,
    {
        match self {
            VNode::Text(text) => VNode::Text(text),
            VNode::Element(element) => VNode::Element(element.renewed()),
            VNode::List(list) => VNode::List(list.renewed()),
            VNode::Component(component) => VNode::Component(component),
        }
    }

    /// Whether the tree is as it was described: no component of it has an
    /// instance or has rendered, with a target or without.
    pub fn is_unrendered_throughout(&self) -> (unrendered: bool)
        ensures
            unrendered == is_unrendered(self@),
        decreases size(self@), 1nat,
    {
        match self {
            VNode::Text(_) => true,
            VNode::Element(element) => element.is_unrendered_throughout(),
            VNode::List(list) => list.is_unrendered_throughout(),
            VNode::Component(component) => component.is_unrendered(),
        }
    }

    /// Renders the components of the tree without a target: every component
    /// is created and holds what it rendered, as long as components nest no
    /// deeper than `depth`. Only a tree that is as it was described can be
    /// rendered so: no component is made an instance twice.
    pub fn server_rendered(self, depth: usize) -> (out: VNode)
        requires
            is_unrendered(self@),
        ensures
            is_served(out@, self@, depth as nat),
        decreases depth, size(self@), 3nat,
    {
        match self {
            VNode::Text(text) => VNode::Text(text),
            VNode::Element(element) => VNode::Element(element.server_rendered(depth)),
            VNode::List(list) => VNode::List(list.server_rendered(depth)),
            VNode::Component(component) => VNode::Component(component.server_rendered(depth)),
        }
    }
}

/// Takes what was there before, if anything, out of `parent`.
pub fn remove_previous(previous: Option<VNode>, target: &mut Target, parent: Handle)
    requires
        previous matches Some(prior) ==> prior@.is_attached(),
    ensures
        previous matches Some(prior) ==> is_torn_down(prior),
        final(target)@ == old(target)@ + removal_effects(previous.deep_view(), parent),
        final(target).depth() == old(target).depth(),
        final(target).request_flag() == old(target).request_flag(),
        crate::target::numbered(old(target)@) ==> crate::target::numbered(final(target)@),
{
    match previous {
        Some(prior) => prior.remove(target, parent),
        None => {
            assert(target@ =~= old(target)@ + removal_effects(None, parent));
        },
    }
}

impl VNode {
    /// Brings the target up to date with this node and hands back the node,
    /// attached. A previous node of the same variant gives what it can be
    /// reused for; one of another variant is taken out whole, and this node is
    /// then built as if nothing had been there.
    pub fn patch(self, target: &mut Target, parent: Handle, next: Option<Handle>, previous: Option<VNode>) -> (out:
        VNode)
        requires
            crate::model::is_unbound(self@),
            previous matches Some(prior) ==> prior@.is_attached(),
        ensures
            is_patch_of(out@, self@, previous.deep_view(), old(target).depth()),
            is_patched(out, self, previous, old(target).request_flag(), old(target).depth()),
            final(target)@ == old(target)@ + patch_effects(out@, self@, previous.deep_view(), parent, next),
            final(target).depth() == old(target).depth(),
            final(target).request_flag() == old(target).request_flag(),
            crate::target::numbered(old(target)@) ==> crate::target::numbered(final(target)@),
            out@.is_attached(),
        decreases old(target).depth(), size(self@) + option_size(previous.deep_view()), 3nat,
    {
        match self {
            VNode::Text(text) => match previous {
                Some(VNode::Text(prior)) => VNode::Text(text.patch(target, parent, next, Some(prior))),
                other => {
                    remove_previous(other, target, parent);
                    let out = VNode::Text(text.patch(target, parent, next, None));
                    assert(target@ =~= old(target)@ + patch_effects(
                        out@,
                        self@,
                        previous.deep_view(),
                        parent,
                        next,
                    ));
                    out
                },
            },
            VNode::Element(element) => match previous {
                Some(VNode::Element(prior)) => VNode::Element(element.patch(target, parent, next, Some(prior))),
                other => {
                    remove_previous(other, target, parent);
                    let out = VNode::Element(element.patch(target, parent, next, None));
                    assert(target@ =~= old(target)@ + patch_effects(
                        out@,
                        self@,
                        previous.deep_view(),
                        parent,
                        next,
                    ));
                    out
                },
            },
            VNode::List(list) => match previous {
                Some(VNode::List(prior)) => VNode::List(list.patch(target, parent, next, Some(prior))),
                other => {
                    remove_previous(other, target, parent);
                    let out = VNode::List(list.patch(target, parent, next, None));
                    assert(target@ =~= old(target)@ + patch_effects(
                        out@,
                        self@,
                        previous.deep_view(),
                        parent,
                        next,
                    ));
                    out
                },
            },
            VNode::Component(component) => match previous {
                Some(VNode::Component(prior)) => VNode::Component(component.patch(target, parent, next, Some(prior))),
                other => {
                    remove_previous(other, target, parent);
                    let out = VNode::Component(component.patch(target, parent, next, None));
                    assert(target@ =~= old(target)@ + patch_effects(
                        out@,
                        self@,
                        previous.deep_view(),
                        parent,
                        next,
                    ));
                    out
                },
            },
        }
    }

    /// Passes over a tree that is attached and renders the components in it
    /// that are due: those that never rendered and those whose state has
    /// changed. Everything else is left as it is.
    pub fn dom_render(self, target: &mut Target, parent: Handle, next: Option<Handle>) -> (out: VNode)
        ensures
            is_render_of(out@, self@, old(target).depth()),
            is_passed(out, self, old(target).request_flag(), old(target).depth()),
            final(target)@ == old(target)@ + render_effects(out@, self@, parent, next),
            final(target).depth() == old(target).depth(),
            final(target).request_flag() == old(target).request_flag(),
            crate::target::numbered(old(target)@) ==> crate::target::numbered(final(target)@),
            self@.is_attached() ==> out@.is_attached(),
        decreases old(target).depth(), size(self@), 3nat,
    {
        match self {
            VNode::Text(text) => {
                assert(target@ =~= old(target)@ + render_effects(self@, self@, parent, next));
                VNode::Text(text)
            },
            VNode::Element(element) => VNode::Element(element.dom_render(target, parent, next)),
            VNode::List(list) => VNode::List(list.dom_render(target, parent, next)),
            VNode::Component(component) => VNode::Component(component.dom_render(target, parent, next)),
        }
    }
}

impl ServerRender for VNode {
    open spec fn servable(&self) -> bool {
        is_unrendered(self@)
    }

    open spec fn served(out: Self, before: Self) -> bool {
        is_served(out@, before@, DEFAULT_DEPTH as nat)
    }

    /// Renders the components of the tree without a target.
    fn server_render(&mut self) {
        let mut node = VNode::Text(VText::new(String::new()));
        core::mem::swap(self, &mut node);
        let mut node = node.server_rendered(DEFAULT_DEPTH);
        core::mem::swap(self, &mut node);
    }
}

impl RenderToString for VNode {
    open spec fn markup(&self) -> Seq<char> {
        self@.html()
    }

    /// Renders the components of the tree without a target and gives the
    /// markup of what came out.
    fn render_to_string(&mut self) -> (html: String) {
        self.server_render();
        self.to_string()
    }
}

impl PartialEq for VNode {
    fn eq(&self, other: &VNode) -> (equal: bool) {
        self.same_as(other)
    }
}

impl vstd::std_specs::cmp::PartialEqSpecImpl for VNode {
    open spec fn obeys_eq_spec() -> bool {
        true
    }

    open spec fn eq_spec(&self, other: &VNode) -> bool {
        same(self@, other@)
    }
}

impl Eq for VNode {

}

impl From<VText> for VNode {
    fn from(item: VText) -> (node: VNode)
        ensures
            node == VNode::Text(item),
    {
        VNode::Text(item)
    }
}

impl vstd::std_specs::convert::FromSpecImpl<VText> for VNode {
    open spec fn obeys_from_spec() -> bool {
        true
    }

    open spec fn from_spec(v: VText) -> VNode {
        VNode::Text(v)
    }
}

impl From<VElement> for VNode {
    fn from(item: VElement) -> (node: VNode)
        ensures
            node == VNode::Element(item),
    {
        VNode::Element(item)
    }
}

impl vstd::std_specs::convert::FromSpecImpl<VElement> for VNode {
    open spec fn obeys_from_spec() -> bool {
        true
    }

    open spec fn from_spec(v: VElement) -> VNode {
        VNode::Element(v)
    }
}

impl From<VList> for VNode {
    fn from(item: VList) -> (node: VNode)
        ensures
            node == VNode::List(item),
    {
        VNode::List(item)
    }
}

impl vstd::std_specs::convert::FromSpecImpl<VList> for VNode {
    open spec fn obeys_from_spec() -> bool {
        true
    }

    open spec fn from_spec(v: VList) -> VNode {
        VNode::List(v)
    }
}

impl From<VComponent> for VNode {
    fn from(item: VComponent) -> (node: VNode)
        ensures
            node == VNode::Component(item),
    {
        VNode::Component(item)
    }
}

impl vstd::std_specs::convert::FromSpecImpl<VComponent> for VNode {
    open spec fn obeys_from_spec() -> bool {
        true
    }

    open spec fn from_spec(v: VComponent) -> VNode {
        VNode::Component(v)
    }
}

} // verus!
