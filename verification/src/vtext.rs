//! Text nodes.

use crate::model::TextModel;
use crate::target::Handle;
use crate::target::Target;
use vstd::prelude::*;
use vstd::string::StringExecFns;

verus! {

/// A run of text, and the target's text node once attached.
pub struct VText {
    content: String,
    dom_ref: Option<Handle>,
}

impl View for VText {
    type V = TextModel;

    closed spec fn view(&self) -> TextModel {
        TextModel { content: self.content@, handle: self.dom_ref }
    }
}

impl DeepView for VText {
    type V = TextModel;

    open spec fn deep_view(&self) -> TextModel {
        self@
    }
}

impl VText {
    /// A text node that is attached to nothing.
    pub fn new(content: String) -> (text: VText)
        ensures
            text@ == (TextModel { content: content@, handle: None }),
    {
        VText { content, dom_ref: None }
    }

    /// The target's text node, once attached.
    pub fn dom_ref(&self) -> (handle: Option<Handle>)
        ensures
            handle == self@.handle,
    {
        self.dom_ref
    }

    /// The text itself.
    pub fn content(&self) -> (content: &str)
        ensures
            content@ == self@.content,
    {
        self.content.as_str()
    }

    /// Appends the text's markup to `out`.
    pub fn write_html(&self, out: &mut String)
        ensures
            final(out)@ == old(out)@ + self@.html(),
    {
        out.append(self.content.as_str());
    }

    /// The text's markup.
    pub fn to_string(&self) -> (html: String)
        ensures
            html@ == self@.html(),
    {
        self.content.clone()
    }

    /// Whether two text nodes say the same and stand for the same node of
    /// the target.
    pub fn same_as(&self, other: &VText) -> (same: bool)
        ensures
            same == (self@ == other@),
    {
        self.content == other.content && self.dom_ref == other.dom_ref
    }

    /// Brings the target up to date with this text. Where `previous` is given,
    /// its text node is kept and rewritten only if the content differs;
    /// otherwise a text node is created and placed under `parent`.
    pub fn patch(self, target: &mut Target, parent: Handle, next: Option<Handle>, previous: Option<VText>) -> (out:
        VText)
        requires
            previous matches Some(old_text) ==> old_text@.is_attached(),
        ensures
            out@.is_patch_of(self@, previous.deep_view()),
            final(target)@ == old(target)@ + out@.patch_effects(previous.deep_view(), parent, next),
            final(target).depth() == old(target).depth(),
            final(target).request_flag() == old(target).request_flag(),
            crate::target::numbered(old(target)@) ==> crate::target::numbered(final(target)@),
    {
        let mut out = self;
        match previous {
            Some(old_text) => {
                let node = match old_text.dom_ref {
                    Some(node) => node,
                    None => vstd::pervasive::unreached(),
                };
                if !(old_text.content == out.content) {
                    target.set_text(node, out.content.as_str());
                }
                out.dom_ref = Some(node);
            },
            None => {
                let node = target.create_text(out.content.as_str());
                target.place(parent, node, next);
                out.dom_ref = Some(node);
            },
        }
        assert(target@ =~= old(target)@ + out@.patch_effects(previous.deep_view(), parent, next));
        out
    }

    /// Re-inserts the text node at the end of `parent`.
    pub fn move_to_last(&self, target: &mut Target, parent: Handle)
        requires
            self@.is_attached(),
        ensures
            final(target)@ == old(target)@ + self@.move_to_last_effects(parent),
            final(target).depth() == old(target).depth(),
            final(target).request_flag() == old(target).request_flag(),
            crate::target::numbered(old(target)@) ==> crate::target::numbered(final(target)@),
    {
        match self.dom_ref {
            Some(node) => target.append_child(parent, node),
            None => vstd::pervasive::unreached(),
        }
        assert(target@ =~= old(target)@ + self@.move_to_last_effects(parent));
    }

    /// Re-inserts the text node before `next` under `parent`.
    pub fn move_before(&self, target: &mut Target, parent: Handle, next: Handle)
        requires
            self@.is_attached(),
        ensures
            final(target)@ == old(target)@ + self@.move_before_effects(parent, next),
            final(target).depth() == old(target).depth(),
            final(target).request_flag() == old(target).request_flag(),
            crate::target::numbered(old(target)@) ==> crate::target::numbered(final(target)@),
    {
        match self.dom_ref {
            Some(node) => target.insert_before(parent, node, next),
            None => vstd::pervasive::unreached(),
        }
        assert(target@ =~= old(target)@ + self@.move_before_effects(parent, next));
    }

    /// Takes the text node out of `parent`.
    pub fn remove(self, target: &mut Target, parent: Handle)
        requires
            self@.is_attached(),
        ensures
            final(target)@ == old(target)@ + self@.remove_effects(parent),
            final(target).depth() == old(target).depth(),
            final(target).request_flag() == old(target).request_flag(),
            crate::target::numbered(old(target)@) ==> crate::target::numbered(final(target)@),
    {
        match self.dom_ref {
            Some(node) => target.remove_child(parent, node),
            None => vstd::pervasive::unreached(),
        }
        assert(target@ =~= old(target)@ + self@.remove_effects(parent));
    }

    /// The target's node that stands for the text.
    pub fn dom_node(&self) -> (node: Option<Handle>)
        ensures
            node == self@.dom_node(),
    {
        self.dom_ref
    }
}

impl PartialEq for VText {
    fn eq(&self, other: &VText) -> (same: bool) {
        self.same_as(other)
    }
}

impl vstd::std_specs::cmp::PartialEqSpecImpl for VText {
    open spec fn obeys_eq_spec() -> bool {
        true
    }

    open spec fn eq_spec(&self, other: &VText) -> bool {
        self@ == other@
    }
}

impl Eq for VText {

}

impl From<&str> for VText {
    fn from(item: &str) -> (text: VText)
        ensures
            text@ == (TextModel { content: item@, handle: None }),
    {
        VText::new(item.to_owned())
    }
}

impl vstd::std_specs::convert::FromSpecImpl<&str> for VText {
    open spec fn obeys_from_spec() -> bool {
        false
    }

    open spec fn from_spec(v: &str) -> VText {
        arbitrary()
    }
}

impl From<String> for VText {
    fn from(item: String) -> (text: VText)
        ensures
            text@ == (TextModel { content: item@, handle: None }),
    {
        VText::new(item)
    }
}

impl vstd::std_specs::convert::FromSpecImpl<String> for VText {
    open spec fn obeys_from_spec() -> bool {
        false
    }

    open spec fn from_spec(v: String) -> VText {
        arbitrary()
    }
}

} // verus!

