use papito_dom::attributes::Attributes;
use papito_dom::attributes::ClassString;
use papito_dom::codegen::{FieldRule, IsPrivate, PropMark, Signature};
use papito_dom::events::{DOMEvent, DOMEventListener, Events};
use papito_dom::scheduler::Notifier;
use papito_dom::target::{Effect, Target};
use papito_dom::traits::{Component, Lifecycle, Render, RenderToString, ServerRender};
use papito_dom::vdiff::{DOMNode, DOMPatch, DOMRemove, DOMRender, DOMReorder};
use papito_dom::velement::{create_new_dom_node, describe, patch_child, VElement};
use papito_dom::vlist::VList;
use papito_dom::vnode::{remove_previous, VNode};
use papito_dom::vtext::VText;
use papito_dom::{comp, el, ev, h, li, txt};

fn since(target: &Target, start: usize) -> Vec<Effect> {
    target.effects()[start..].to_vec()
}

#[test]
fn what_is_optional_is_patched_or_removed() {
    let mut target = Target::new();
    let root = target.adopt();
    let first = DOMPatch::patch(Some(VText::new("a".into())), &mut target, root, None, None);
    assert_eq!(DOMNode::dom_node(first.as_ref().unwrap()), Some(1));
    let second = DOMPatch::patch(Some(VText::new("b".into())), &mut target, root, None, first);
    let gone: Option<VText> = DOMPatch::patch(None, &mut target, root, None, second);
    assert!(gone.is_none());
    let none: Option<VText> = DOMPatch::patch(None, &mut target, root, None, None);
    assert!(none.is_none());
    DOMRemove::remove(None::<VText>, &mut target, root);
    assert_eq!(
        since(&target, 1),
        vec![
            Effect::CreateText { node: 1, content: "a".to_string() },
            Effect::AppendChild { parent: 0, node: 1 },
            Effect::SetText { node: 1, content: "b".to_string() },
            Effect::RemoveChild { parent: 0, node: 1 },
        ]
    );
}

#[test]
fn what_is_boxed_is_patched_as_what_is_in_the_box() {
    let mut target = Target::new();
    let root = target.adopt();
    let boxed = DOMPatch::patch(Box::new(h(txt("a"))), &mut target, root, Some(5), None);
    assert_eq!(boxed.dom_node(), Some(1));
    assert_eq!(
        since(&target, 1),
        vec![
            Effect::CreateText { node: 1, content: "a".to_string() },
            Effect::InsertBefore { parent: 0, node: 1, sibling: 5 },
        ]
    );
}

#[test]
fn every_kind_of_node_follows_the_protocol() {
    let mut target = Target::new();
    let root = target.adopt();
    let element = DOMPatch::patch(el(("p", h(txt("x")))), &mut target, root, None, None);
    assert_eq!(DOMNode::dom_node(&element), Some(1));
    DOMReorder::move_to_last(&element, &mut target, root);
    DOMReorder::move_before(&element, &mut target, root, 9);
    let element = DOMRender::dom_render(element, &mut target, root, None);
    let start = target.len();
    DOMRemove::remove(element, &mut target, root);
    assert_eq!(
        since(&target, start),
        vec![Effect::RemoveChild { parent: 1, node: 2 }, Effect::RemoveChild { parent: 0, node: 1 }]
    );

    let start = target.len();
    let list = DOMPatch::patch(li(vec![h(txt("a")), h(txt("b"))]), &mut target, root, None, None);
    assert_eq!(DOMNode::dom_node(&list), Some(start + 2));
    DOMReorder::move_to_last(&list, &mut target, root);
    DOMReorder::move_before(&list, &mut target, root, 9);
    let list = DOMRender::dom_render(list, &mut target, root, None);
    DOMRemove::remove(list, &mut target, root);

    let start = target.len();
    let node = DOMPatch::patch(h(txt("n")), &mut target, root, None, None);
    assert_eq!(DOMNode::dom_node(&node), Some(start));
    DOMReorder::move_to_last(&node, &mut target, root);
    DOMReorder::move_before(&node, &mut target, root, 9);
    let node = DOMRender::dom_render(node, &mut target, root, None);
    let before = target.len();
    DOMRemove::remove(node, &mut target, root);
    assert_eq!(since(&target, before), vec![Effect::RemoveChild { parent: 0, node: start }]);

    let text = DOMPatch::patch(VText::new("t".into()), &mut target, root, None, None);
    DOMReorder::move_to_last(&text, &mut target, root);
    DOMReorder::move_before(&text, &mut target, root, 9);
    DOMRemove::remove(text, &mut target, root);
}

#[test]
fn the_parts_of_an_element_follow_the_protocol() {
    let mut target = Target::new();
    let class = DOMPatch::patch(ClassString::from("a"), &mut target, 3, None, None);
    DOMRemove::remove(class, &mut target, 3);
    let attrs: Attributes = vec![("k", "v")].into();
    let attrs = DOMPatch::patch(attrs, &mut target, 3, None, None);
    DOMRemove::remove(attrs, &mut target, 3);
    let events = DOMPatch::patch(Events::new(vec![ev(("click", 1))]), &mut target, 3, None, None);
    DOMRemove::remove(events, &mut target, 3);
    assert_eq!(
        target.effects().clone(),
        vec![
            Effect::SetAttribute { node: 3, key: "class".to_string(), value: "a".to_string() },
            Effect::RemoveAttribute { node: 3, key: "class".to_string() },
            Effect::SetAttribute { node: 3, key: "k".to_string(), value: "v".to_string() },
            Effect::RemoveAttribute { node: 3, key: "k".to_string() },
            Effect::AddEventListener { listener: 4, node: 3, event_type: "click".to_string(), callback: 1 },
            Effect::RemoveEventListener { listener: 4 },
        ]
    );
}

struct Pair;

impl Component for Pair {
    type Props = ();

    fn create(_: (), _: Notifier) -> Self {
        Pair
    }

    fn update(&self, _: ()) {}

    fn eq_props(&self, _: &()) -> bool {
        true
    }
}

impl Lifecycle for Pair {}

impl Render for Pair {
    fn render(&self) -> VNode {
        h(li(vec![h(txt("one")), h(txt("two"))]))
    }
}

#[test]
fn a_component_follows_the_protocol() {
    let mut target = Target::new();
    let root = target.adopt();
    let component = DOMPatch::patch(comp::<Pair>(()), &mut target, root, None, None);
    assert_eq!(DOMNode::dom_node(&component), Some(4));
    assert_eq!(component.to_string(), "onetwo");
    let start = target.len();
    DOMReorder::move_to_last(&component, &mut target, root);
    DOMReorder::move_before(&component, &mut target, root, 9);
    let component = DOMRender::dom_render(component, &mut target, root, None);
    DOMRemove::remove(component, &mut target, root);
    assert_eq!(
        since(&target, start),
        vec![
            Effect::AppendChild { parent: 0, node: 4 },
            Effect::AppendChild { parent: 0, node: 2 },
            Effect::InsertBefore { parent: 0, node: 4, sibling: 9 },
            Effect::InsertBefore { parent: 0, node: 2, sibling: 9 },
            Effect::RemoveChild { parent: 0, node: 4 },
            Effect::RemoveChild { parent: 0, node: 2 },
            Effect::Lifecycle { component: 1, hook: papito_dom::target::Hook::Destroyed },
        ]
    );
}

#[test]
fn what_was_there_before_is_removed_if_anything_was() {
    let mut target = Target::new();
    let root = target.adopt();
    let old = h(txt("x")).patch(&mut target, root, None, None);
    let start = target.len();
    remove_previous(Some(old), &mut target, root);
    remove_previous(None, &mut target, root);
    assert_eq!(since(&target, start), vec![Effect::RemoveChild { parent: 0, node: 1 }]);
}

#[test]
fn the_child_of_an_element_is_patched_under_it() {
    let mut target = Target::new();
    let child = patch_child(Some(Box::new(h(txt("a")))), &mut target, 7, None);
    let gone = patch_child(None, &mut target, 7, child);
    assert!(gone.is_none());
    assert!(patch_child(None, &mut target, 7, None).is_none());
    assert_eq!(
        target.effects().clone(),
        vec![
            Effect::CreateText { node: 0, content: "a".to_string() },
            Effect::AppendChild { parent: 7, node: 0 },
            Effect::RemoveChild { parent: 7, node: 0 },
        ]
    );
}

#[test]
fn an_element_is_made_anew() {
    let mut target = Target::new();
    let out = create_new_dom_node(el(("hr", true)), &mut target, 4, Some(2));
    assert_eq!(out.dom_ref(), Some(0));
    assert_eq!(
        target.effects().clone(),
        vec![
            Effect::CreateElement { node: 0, tag: "hr".to_string() },
            Effect::InsertBefore { parent: 4, node: 0, sibling: 2 },
        ]
    );
}

#[test]
fn an_element_is_described_by_its_parts() {
    let element = describe("a", Some(vec![("href", "#"), ("class", "x"), ("class", "y")]), Some(h(txt("t"))), false);
    assert_eq!(element.to_string(), r##"<a class="y" href="#">t</a>"##);
    assert!(element == el(("a", vec![("class", "y"), ("href", "#")], h(txt("t")), false)));
    assert!(describe("a", None, None, true) == el(("a", true)));
    assert!(el(("a", vec![("k", "v")], true)) == VElement::new("a".into(), None, Some(vec![("k", "v")].into()), None, true));
    assert!(el(("a", h(txt("t")), true)) == VElement::new("a".into(), None, None, Some(h(txt("t"))), true));
}

#[test]
fn nodes_are_made_from_what_converts_into_them() {
    assert!(VNode::new(VText::new("a".into())) == h(txt("a")));
    assert!(VNode::new(el(("p", ()))) == h(el(("p", ()))));
    assert!(VNode::new(li(vec![h(txt("a"))])) == h(li(vec![("0", h(txt("a")))])));
    assert!(h(txt("a".to_string())) == h(txt("a")));
    assert!(ClassString::from("a".to_string()) == ClassString::new("a".to_string()));
    assert_eq!(ClassString::from("a").value(), "a");
    let list = VList::new(vec![("k".to_string(), h(txt("a")))]);
    assert!(list == li(vec![("k".to_string(), h(txt("a")))]));
    assert_eq!(list.to_string(), "a");
}

#[test]
fn attributes_are_put_in_one_by_one() {
    let attrs = Attributes::new().insert("a".into(), "1".into()).insert("b".into(), "2".into());
    let attrs = attrs.insert("a".into(), "3".into());
    let expected: Attributes = vec![("a", "3"), ("b", "2")].into();
    assert!(attrs == expected);
    let mut html = String::new();
    attrs.write_html(&mut html);
    assert_eq!(html, r#" a="3" b="2""#);
    let mut class = String::new();
    ClassString::from("c").write_html(&mut class);
    assert_eq!(class, r#" class="c""#);
}

#[test]
fn elements_and_lists_are_rendered_without_a_target() {
    let mut element = el(("div", h(comp::<Pair>(()))));
    element.server_render();
    assert_eq!(element.to_string(), "<div>onetwo</div>");
    let mut element = el(("div", h(comp::<Pair>(()))));
    assert_eq!(element.render_to_string(), "<div>onetwo</div>");
    let mut list = li(vec![h(comp::<Pair>(())), h(txt("!"))]);
    list.server_render();
    assert_eq!(list.to_string(), "onetwo!");
    let mut list = li(vec![h(comp::<Pair>(())), h(txt("!"))]);
    assert_eq!(list.render_to_string(), "onetwo!");
    let mut node = h(comp::<Pair>(()));
    node.server_render();
    assert_eq!(node.to_string(), "onetwo");
    let component = comp::<Pair>(()).server_rendered(3);
    assert_eq!(component.to_string(), "onetwo");
    let mut component = comp::<Pair>(());
    component.server_render();
    assert_eq!(component.to_string(), "onetwo");
    let mut component = comp::<Pair>(());
    assert_eq!(component.render_to_string(), "onetwo");
}

#[test]
fn a_component_that_was_rendered_without_a_target_is_not_started_in_one() {
    let mut node = h(comp::<Pair>(()));
    node.server_render();
    let mut target = Target::new();
    let root = target.adopt();
    let out = node.patch(&mut target, root, None, None);
    assert_eq!(target.len(), 1);
    assert_eq!(out.to_string(), "onetwo");
}

#[test]
fn what_has_no_visibility_of_its_own_is_private() {
    let signature = Signature { private: true, is_unsafe: false, returns: false, arguments: vec![] };
    assert!(signature.is_private());
    assert!(!FieldRule { private: false, prop: PropMark::Absent }.is_private());
}

#[test]
fn a_binding_is_what_can_be_attached_and_detached() {
    let mut target = Target::new();
    let mut listener = DOMEventListener::from(("input", 8));
    assert_eq!(DOMEvent::event_type(&listener), "input");
    DOMEvent::attach(&mut listener, &mut target, 2);
    assert_eq!(listener.listener_handle(), Some(0));
    DOMEvent::detach(&mut listener, &mut target);
    assert_eq!(
        target.effects().clone(),
        vec![
            Effect::AddEventListener { listener: 0, node: 2, event_type: "input".to_string(), callback: 8 },
            Effect::RemoveEventListener { listener: 0 },
        ]
    );
}
