use indexmap::IndexSet;
use papito_dom::attributes::patch_attrs;
use papito_dom::attributes::patch_class;
use papito_dom::attributes::Attributes;
use papito_dom::attributes::ClassString;
use papito_dom::events::DOMEventListener;
use papito_dom::events::Events;
use papito_dom::target::Effect;
use papito_dom::target::Handle;
use papito_dom::target::Target;
use papito_dom::velement::VElement;
use papito_dom::reconcile::has_dirty_order;
use papito_dom::reconcile::update_positions;
use papito_dom::vlist::VList;
use papito_dom::vnode::VNode;
use papito_dom::vtext::VText;
use papito_dom::{el, ev, h, li, txt};

fn since(target: &Target, start: usize) -> Vec<Effect> {
    target.effects()[start..].to_vec()
}

fn texts(items: &[(&'static str, &'static str)]) -> VNode {
    let mut children = Vec::new();
    for (key, content) in items {
        children.push((*key, h(txt(*content))));
    }
    h(li(children))
}

fn create_text(node: Handle, content: &str) -> Effect {
    Effect::CreateText { node, content: content.to_string() }
}

fn create_element(node: Handle, tag: &str) -> Effect {
    Effect::CreateElement { node, tag: tag.to_string() }
}

fn set_attribute(node: Handle, key: &str, value: &str) -> Effect {
    Effect::SetAttribute { node, key: key.to_string(), value: value.to_string() }
}

fn remove_attribute(node: Handle, key: &str) -> Effect {
    Effect::RemoveAttribute { node, key: key.to_string() }
}

fn add_listener(listener: Handle, node: Handle, event_type: &str, callback: u64) -> Effect {
    Effect::AddEventListener { listener, node, event_type: event_type.to_string(), callback }
}

#[test]
fn a_new_target_has_recorded_nothing() {
    let target = Target::new();
    assert_eq!(target.len(), 0);
    assert_eq!(target.remaining_depth(), usize::MAX);
    assert!(!target.take_render_request());
}

#[test]
fn handles_are_positions_in_the_record() {
    let mut target = Target::new();
    let root = target.adopt();
    let element = target.create_element("div");
    target.append_child(root, element);
    let text = target.create_text("x");
    target.insert_before(element, text, 7);
    target.set_text(text, "y");
    target.set_attribute(element, "a", "1");
    target.remove_attribute(element, "a");
    let listener = target.add_event_listener(element, "click", 9);
    target.remove_event_listener(listener);
    target.remove_child(element, text);
    assert_eq!((root, element, text, listener), (0, 1, 3, 8));
    assert_eq!(
        target.effects().clone(),
        vec![
            Effect::Adopt { node: 0 },
            create_element(1, "div"),
            Effect::AppendChild { parent: 0, node: 1 },
            create_text(3, "x"),
            Effect::InsertBefore { parent: 1, node: 3, sibling: 7 },
            Effect::SetText { node: 3, content: "y".to_string() },
            set_attribute(1, "a", "1"),
            remove_attribute(1, "a"),
            add_listener(8, 1, "click", 9),
            Effect::RemoveEventListener { listener: 8 },
            Effect::RemoveChild { parent: 1, node: 3 },
        ]
    );
    assert_eq!(*target.effect(3), create_text(3, "x"));
}

#[test]
fn a_node_is_placed_before_its_sibling_or_last() {
    let mut target = Target::new();
    target.place(1, 2, Some(3));
    target.place(1, 2, None);
    assert_eq!(
        target.effects().clone(),
        vec![
            Effect::InsertBefore { parent: 1, node: 2, sibling: 3 },
            Effect::AppendChild { parent: 1, node: 2 },
        ]
    );
}

#[test]
fn a_text_is_created_and_placed() {
    let mut target = Target::new();
    let root = target.adopt();
    let text = VText::new("hello".into()).patch(&mut target, root, None, None);
    assert_eq!(text.dom_ref(), Some(1));
    assert_eq!(text.dom_node(), Some(1));
    assert_eq!(text.content(), "hello");
    assert_eq!(
        since(&target, 1),
        vec![create_text(1, "hello"), Effect::AppendChild { parent: 0, node: 1 }]
    );
    let start = target.len();
    let other = VText::new("bye".into()).patch(&mut target, root, Some(1), None);
    assert_eq!(other.dom_ref(), Some(3));
    assert_eq!(
        since(&target, start),
        vec![create_text(3, "bye"), Effect::InsertBefore { parent: 0, node: 3, sibling: 1 }]
    );
}

#[test]
fn a_text_keeps_its_node_and_is_rewritten_only_if_it_differs() {
    let mut target = Target::new();
    let root = target.adopt();
    let first = VText::new("one".into()).patch(&mut target, root, None, None);
    let start = target.len();
    let second = VText::new("one".into()).patch(&mut target, root, None, Some(first));
    assert_eq!(second.dom_ref(), Some(1));
    assert_eq!(since(&target, start), vec![]);
    let third = VText::new("two".into()).patch(&mut target, root, None, Some(second));
    assert_eq!(third.dom_ref(), Some(1));
    assert_eq!(
        since(&target, start),
        vec![Effect::SetText { node: 1, content: "two".to_string() }]
    );
}

#[test]
fn a_text_is_moved_and_removed_by_its_node() {
    let mut target = Target::new();
    let root = target.adopt();
    let text = VText::new("one".into()).patch(&mut target, root, None, None);
    let start = target.len();
    text.move_to_last(&mut target, root);
    text.move_before(&mut target, root, 9);
    text.remove(&mut target, root);
    assert_eq!(
        since(&target, start),
        vec![
            Effect::AppendChild { parent: 0, node: 1 },
            Effect::InsertBefore { parent: 0, node: 1, sibling: 9 },
            Effect::RemoveChild { parent: 0, node: 1 },
        ]
    );
}

#[test]
fn the_class_is_written_where_new_or_different_and_unset_where_gone() {
    let mut target = Target::new();
    let kept = patch_class(Some(ClassString::from("a")), &mut target, 4, None);
    assert!(kept == Some(ClassString::from("a")));
    patch_class(Some(ClassString::from("a")), &mut target, 4, Some(ClassString::from("a")));
    patch_class(Some(ClassString::from("b")), &mut target, 4, Some(ClassString::from("a")));
    let gone = patch_class(None, &mut target, 4, Some(ClassString::from("b")));
    assert!(gone.is_none());
    patch_class(None, &mut target, 4, None);
    assert_eq!(
        target.effects().clone(),
        vec![set_attribute(4, "class", "a"), set_attribute(4, "class", "b"), remove_attribute(4, "class")]
    );
}

#[test]
fn attributes_are_written_key_by_key() {
    let mut target = Target::new();
    let old: Attributes = vec![("a", "1"), ("b", "2"), ("c", "3"), ("d", "4")].into();
    let new: Attributes = vec![("e", "5"), ("b", "2"), ("a", "9")].into();
    let out = new.patch(&mut target, 7, Some(old));
    assert_eq!(out.len(), 3);
    // `b` and `a` leave the old set by swap: [a b c d] -> [a d c] -> [c d].
    assert_eq!(
        target.effects().clone(),
        vec![
            set_attribute(7, "e", "5"),
            set_attribute(7, "a", "9"),
            remove_attribute(7, "c"),
            remove_attribute(7, "d"),
        ]
    );
}

#[test]
fn attributes_are_all_written_where_there_were_none_and_all_unset_where_none_are_left() {
    let mut target = Target::new();
    let new: Attributes = vec![("a", "1"), ("b", "2")].into();
    let out = patch_attrs(Some(new), &mut target, 7, None);
    let gone = patch_attrs(None, &mut target, 7, out);
    assert!(gone.is_none());
    patch_attrs(None, &mut target, 7, None);
    assert_eq!(
        target.effects().clone(),
        vec![
            set_attribute(7, "a", "1"),
            set_attribute(7, "b", "2"),
            remove_attribute(7, "a"),
            remove_attribute(7, "b"),
        ]
    );
}

#[test]
fn listeners_are_detached_and_attached_anew() {
    let mut target = Target::new();
    let root = target.adopt();
    let first = Events::new(vec![ev(("click", 1)), ev(("input", 2))]).patch(&mut target, root, None);
    assert_eq!(first.len(), 2);
    let second = Events::new(vec![ev(("click", 1))]).patch(&mut target, root, Some(first));
    second.remove(&mut target);
    assert_eq!(
        since(&target, 1),
        vec![
            add_listener(1, 0, "click", 1),
            add_listener(2, 0, "input", 2),
            Effect::RemoveEventListener { listener: 1 },
            Effect::RemoveEventListener { listener: 2 },
            add_listener(5, 0, "click", 1),
            Effect::RemoveEventListener { listener: 5 },
        ]
    );
}

#[test]
fn a_listener_is_attached_and_detached() {
    let mut target = Target::new();
    let mut listener = DOMEventListener::new("click", 3);
    assert_eq!(listener.event_type(), "click");
    assert_eq!(listener.callback(), 3);
    assert_eq!(listener.listener_handle(), None);
    listener.attach(&mut target, 4);
    assert_eq!(listener.listener_handle(), Some(0));
    listener.detach(&mut target);
    assert_eq!(listener.listener_handle(), None);
    assert_eq!(
        target.effects().clone(),
        vec![add_listener(0, 4, "click", 3), Effect::RemoveEventListener { listener: 0 }]
    );
}

#[test]
fn a_binding_is_fresh_until_it_is_attached() {
    let mut target = Target::new();
    let mut listener = ev(("input", 9));
    assert!(listener.is_fresh());
    listener.attach(&mut target, 2);
    assert!(!listener.is_fresh());
    listener.detach(&mut target);
    assert!(!listener.is_fresh());
    assert_eq!(listener.listener_handle(), None);
    assert_eq!(target.len(), 2);
}

#[test]
fn bindings_that_were_attached_are_renewed_as_they_were_described() {
    let mut target = Target::new();
    let events = Events::new(vec![ev(("click", 1)), ev(("input", 2))]);
    assert!(events.is_fresh());
    let attached = events.patch(&mut target, 0, None);
    assert!(!attached.is_fresh());
    let renewed = attached.renewed();
    assert!(renewed.is_fresh());
    assert_eq!(renewed.len(), 2);
    let again = renewed.patch(&mut target, 0, Some(attached));
    assert!(!again.is_fresh());
    assert_eq!(
        target.effects().clone(),
        vec![
            add_listener(0, 0, "click", 1),
            add_listener(1, 0, "input", 2),
            Effect::RemoveEventListener { listener: 0 },
            Effect::RemoveEventListener { listener: 1 },
            add_listener(4, 0, "click", 1),
            add_listener(5, 0, "input", 2),
        ]
    );
}

#[test]
fn a_tree_that_was_patched_is_renewed_as_it_was_described() {
    let mut target = Target::new();
    let root = target.adopt();
    let fresh = h(li(vec![("card", h(card())), ("text", h(txt("t")))]));
    assert!(fresh.is_unbound_throughout());
    let out = fresh.patch(&mut target, root, None, None);
    assert!(!out.is_unbound_throughout());
    let markup = out.to_string();
    let renewed = out.renewed();
    assert!(renewed.is_unbound_throughout());
    assert_eq!(renewed.to_string(), markup);
}

fn card() -> VElement {
    let mut element = el((
        "div",
        vec![("class", "card"), ("id", "c1")],
        h(el(("span", h(txt("hi"))))),
    ));
    element.set_events(vec![ev(("click", 11))]);
    element
}

#[test]
fn an_element_is_made_part_by_part_and_then_placed() {
    let mut target = Target::new();
    let root = target.adopt();
    let out = card().patch(&mut target, root, None, None);
    assert_eq!(out.dom_ref(), Some(1));
    assert_eq!(
        since(&target, 1),
        vec![
            create_element(1, "div"),
            set_attribute(1, "class", "card"),
            set_attribute(1, "id", "c1"),
            create_element(4, "span"),
            create_text(5, "hi"),
            Effect::AppendChild { parent: 4, node: 5 },
            Effect::AppendChild { parent: 1, node: 4 },
            add_listener(8, 1, "click", 11),
            Effect::AppendChild { parent: 0, node: 1 },
        ]
    );
}

#[test]
fn an_element_of_the_same_tag_is_patched_part_by_part() {
    let mut target = Target::new();
    let root = target.adopt();
    let old = card().patch(&mut target, root, None, None);
    let start = target.len();
    let mut new = el((
        "div",
        vec![("class", "card wide"), ("title", "t")],
        h(el(("span", h(txt("ho"))))),
    ));
    new.set_events(vec![ev(("click", 12))]);
    let out = new.patch(&mut target, root, None, Some(old));
    assert_eq!(out.dom_ref(), Some(1));
    assert_eq!(
        since(&target, start),
        vec![
            set_attribute(1, "class", "card wide"),
            set_attribute(1, "title", "t"),
            remove_attribute(1, "id"),
            Effect::SetText { node: 5, content: "ho".to_string() },
            Effect::RemoveEventListener { listener: 8 },
            add_listener(start + 5, 1, "click", 12),
        ]
    );
}

#[test]
fn an_element_of_another_tag_is_replaced() {
    let mut target = Target::new();
    let root = target.adopt();
    let old = card().patch(&mut target, root, None, None);
    let start = target.len();
    let out = el(("p", ())).patch(&mut target, root, Some(3), Some(old));
    assert_eq!(out.dom_ref(), Some(start + 4));
    assert_eq!(
        since(&target, start),
        vec![
            Effect::RemoveEventListener { listener: 8 },
            Effect::RemoveChild { parent: 4, node: 5 },
            Effect::RemoveChild { parent: 1, node: 4 },
            Effect::RemoveChild { parent: 0, node: 1 },
            create_element(start + 4, "p"),
            Effect::InsertBefore { parent: 0, node: start + 4, sibling: 3 },
        ]
    );
}

#[test]
fn a_child_that_is_gone_is_taken_out_of_its_element() {
    let mut target = Target::new();
    let root = target.adopt();
    let old = el(("div", h(txt("x")))).patch(&mut target, root, None, None);
    let start = target.len();
    let out = el(("div", ())).patch(&mut target, root, None, Some(old));
    assert_eq!(out.dom_ref(), Some(1));
    assert_eq!(since(&target, start), vec![Effect::RemoveChild { parent: 1, node: 2 }]);
}

/// Patching against an identical previous node records nothing.
#[test]
fn an_identical_patch_records_nothing() {
    let tree = || {
        h(el((
            "div",
            vec![("class", "a"), ("id", "b")],
            h(li(vec![("x", h(txt("1"))), ("y", h(el(("br", true)))), ("z", texts(&[("k", "v")]))])),
        )))
    };
    let mut target = Target::new();
    let root = target.adopt();
    let old = tree().patch(&mut target, root, None, None);
    let start = target.len();
    let out = tree().patch(&mut target, root, None, Some(old));
    assert_eq!(since(&target, start), vec![]);
    assert_eq!(out.dom_node(), Some(1));
    assert_eq!(out.to_string(), tree().to_string());
}

/// Old keys {a,b,c} with "1","2","3", new keys {a,b,c} with "1","2","4":
/// only the text under `c` is rewritten.
#[test]
fn keyed_children_are_reused() {
    let mut target = Target::new();
    let root = target.adopt();
    let old = texts(&[("a", "1"), ("b", "2"), ("c", "3")]).patch(&mut target, root, None, None);
    assert_eq!(
        since(&target, 1),
        vec![
            create_text(1, "3"),
            Effect::AppendChild { parent: 0, node: 1 },
            create_text(3, "2"),
            Effect::InsertBefore { parent: 0, node: 3, sibling: 1 },
            create_text(5, "1"),
            Effect::InsertBefore { parent: 0, node: 5, sibling: 3 },
        ]
    );
    let start = target.len();
    let out = texts(&[("a", "1"), ("b", "2"), ("c", "4")]).patch(&mut target, root, None, Some(old));
    assert_eq!(
        since(&target, start),
        vec![Effect::SetText { node: 1, content: "4".to_string() }]
    );
    assert_eq!(out.to_string(), "124");
}

/// Old order [a,b,c], new order [a,b,c,d]: nothing is moved, `d` is created.
#[test]
fn an_appended_child_is_created_and_nothing_is_moved() {
    let mut target = Target::new();
    let root = target.adopt();
    let old = texts(&[("a", "1"), ("b", "2"), ("c", "3")]).patch(&mut target, root, None, None);
    let start = target.len();
    texts(&[("a", "1"), ("b", "2"), ("c", "3"), ("d", "4")]).patch(&mut target, root, None, Some(old));
    assert_eq!(
        since(&target, start),
        vec![create_text(7, "4"), Effect::AppendChild { parent: 0, node: 7 }]
    );
}

/// A child that is new in the middle is placed before the node of the
/// child after it.
#[test]
fn an_inserted_child_is_placed_before_its_successor() {
    let mut target = Target::new();
    let root = target.adopt();
    let old = texts(&[("a", "1"), ("c", "3")]).patch(&mut target, root, None, None);
    let start = target.len();
    texts(&[("a", "1"), ("b", "2"), ("c", "3")]).patch(&mut target, root, Some(40), Some(old));
    assert_eq!(
        since(&target, start),
        vec![create_text(5, "2"), Effect::InsertBefore { parent: 0, node: 5, sibling: 1 }]
    );
}

/// Old order [a,b,c], new order [c,a,b]: the children that changed place
/// are moved, last to first; nothing is created or removed.
#[test]
fn shuffled_children_are_moved() {
    let mut target = Target::new();
    let root = target.adopt();
    let old = texts(&[("a", "1"), ("b", "2"), ("c", "3")]).patch(&mut target, root, None, None);
    let start = target.len();
    let out = texts(&[("c", "3"), ("a", "1"), ("b", "2")]).patch(&mut target, root, None, Some(old));
    assert_eq!(
        since(&target, start),
        vec![
            Effect::AppendChild { parent: 0, node: 3 },
            Effect::InsertBefore { parent: 0, node: 5, sibling: 3 },
            Effect::InsertBefore { parent: 0, node: 1, sibling: 5 },
        ]
    );
    assert_eq!(out.to_string(), "312");
    assert_eq!(out.dom_node(), Some(1));
}

/// A child that kept its position is not moved in the sweep.
#[test]
fn a_child_that_kept_its_position_stays() {
    let mut target = Target::new();
    let root = target.adopt();
    let old = texts(&[("a", "1"), ("b", "2"), ("c", "3")]).patch(&mut target, root, None, None);
    let start = target.len();
    texts(&[("c", "3"), ("b", "2"), ("a", "1")]).patch(&mut target, root, None, Some(old));
    assert_eq!(
        since(&target, start),
        vec![
            Effect::AppendChild { parent: 0, node: 5 },
            Effect::InsertBefore { parent: 0, node: 1, sibling: 3 },
        ]
    );
}

/// Old keys {a,b}, new keys {a}: what stood under `b` is taken out once,
/// its listener first.
#[test]
fn a_stale_child_is_removed_once() {
    let mut button = el(("button", h(txt("b"))));
    button.set_events(vec![ev(("click", 5))]);
    let mut target = Target::new();
    let root = target.adopt();
    let old = h(li(vec![("a", h(txt("1"))), ("b", h(button))])).patch(&mut target, root, None, None);
    let start = target.len();
    let out = texts(&[("a", "1")]).patch(&mut target, root, None, Some(old));
    assert_eq!(
        since(&target, start),
        vec![
            Effect::RemoveEventListener { listener: 4 },
            Effect::RemoveChild { parent: 1, node: 2 },
            Effect::RemoveChild { parent: 0, node: 1 },
        ]
    );
    assert_eq!(out.to_string(), "1");
}

/// Stale children are taken out in the order in which the removals by swap
/// left them.
#[test]
fn stale_children_are_removed_in_the_order_the_swaps_left() {
    let mut target = Target::new();
    let root = target.adopt();
    let old = texts(&[("a", "1"), ("b", "2"), ("c", "3"), ("d", "4")]).patch(&mut target, root, None, None);
    let start = target.len();
    texts(&[("a", "1")]).patch(&mut target, root, None, Some(old));
    // `a` leaves by swap: [a b c d] -> [d b c]. The children were built
    // last to first: `d` has the node 1, `c` 3, `b` 5 and `a` 7.
    assert_eq!(
        since(&target, start),
        vec![
            Effect::RemoveChild { parent: 0, node: 1 },
            Effect::RemoveChild { parent: 0, node: 5 },
            Effect::RemoveChild { parent: 0, node: 3 },
        ]
    );
}

/// A new text in the place of an element: the element's subtree is taken
/// out whole, then the text is created.
#[test]
fn a_node_of_another_variant_is_replaced() {
    let mut target = Target::new();
    let root = target.adopt();
    let old = h(card()).patch(&mut target, root, None, None);
    let start = target.len();
    let out = h(txt("plain")).patch(&mut target, root, None, Some(old));
    assert_eq!(
        since(&target, start),
        vec![
            Effect::RemoveEventListener { listener: 8 },
            Effect::RemoveChild { parent: 4, node: 5 },
            Effect::RemoveChild { parent: 1, node: 4 },
            Effect::RemoveChild { parent: 0, node: 1 },
            create_text(start + 4, "plain"),
            Effect::AppendChild { parent: 0, node: start + 4 },
        ]
    );
    assert_eq!(out.dom_node(), Some(start + 4));
}

/// A list where no list was is built last to first: the last child before
/// the sibling that was given, each other child before the one after it.
#[test]
fn a_list_in_the_place_of_a_text_is_built_before_the_sibling() {
    let mut target = Target::new();
    let root = target.adopt();
    let old = h(txt("x")).patch(&mut target, root, None, None);
    let start = target.len();
    texts(&[("a", "1"), ("b", "2")]).patch(&mut target, root, Some(77), Some(old));
    assert_eq!(
        since(&target, start),
        vec![
            Effect::RemoveChild { parent: 0, node: 1 },
            create_text(4, "2"),
            Effect::InsertBefore { parent: 0, node: 4, sibling: 77 },
            create_text(6, "1"),
            Effect::InsertBefore { parent: 0, node: 6, sibling: 4 },
        ]
    );
}

#[test]
fn the_order_is_dirty_only_where_old_children_changed_places() {
    let keys = |names: &[&str]| {
        let mut set = IndexSet::new();
        for name in names {
            set.insert(name.to_string());
        }
        set
    };
    let list = |names: &[&'static str]| {
        let mut children = Vec::new();
        for name in names {
            children.push((*name, h(txt(*name))));
        }
        li(children)
    };
    let old = keys(&["a", "b", "c"]);
    assert!(!has_dirty_order(&list(&["a", "b", "c"]), &old));
    assert!(!has_dirty_order(&list(&["a", "b", "c", "d"]), &old));
    assert!(!has_dirty_order(&list(&["x", "a", "y", "c"]), &old));
    assert!(!has_dirty_order(&list(&[]), &old));
    assert!(!has_dirty_order(&list(&["x", "y"]), &old));
    assert!(has_dirty_order(&list(&["c", "a", "b"]), &old));
    assert!(has_dirty_order(&list(&["b", "a"]), &old));
    assert!(has_dirty_order(&list(&["a", "c", "x", "b"]), &old));
}

#[test]
fn a_list_gives_its_keys_at_their_positions() {
    let old = match texts(&[("a", "1"), ("b", "2"), ("c", "3")]) {
        VNode::List(list) => list,
        _ => unreachable!(),
    };
    let positions = old.key_positions();
    assert_eq!(positions.len(), 3);
    assert_eq!(positions.get_index_of("a"), Some(0));
    assert_eq!(positions.get_index_of("b"), Some(1));
    assert_eq!(positions.get_index_of("c"), Some(2));
    let shuffled = match texts(&[("c", "3"), ("a", "1"), ("b", "2")]) {
        VNode::List(list) => list,
        _ => unreachable!(),
    };
    assert!(has_dirty_order(&shuffled, &positions));
    assert!(!has_dirty_order(&old, &positions));
}

#[test]
fn a_tree_that_was_built_where_nothing_was_is_in_its_first_pass() {
    let mut target = Target::new();
    let root = target.adopt();
    let out = h(card()).patch(&mut target, root, None, None);
    out.well_formed_throughout();
    assert!(out.is_first_pass());
    let list = texts(&[("a", "1"), ("b", "2")]).patch(&mut target, root, None, None);
    list.well_formed_throughout();
    assert!(list.is_first_pass());
}

#[test]
fn the_sweep_moves_a_child_to_the_end_where_its_successor_has_no_node() {
    let mut target = Target::new();
    let root = target.adopt();
    let empty: Vec<VNode> = Vec::new();
    let new = li(vec![("b", h(txt("2"))), ("a", h(txt("1"))), ("e", h(li(empty)))]);
    let out = new.patch(&mut target, root, None, None);
    let mut old = IndexSet::new();
    old.insert("a".to_string());
    old.insert("b".to_string());
    let start = target.len();
    update_positions(&out, &mut target, root, &old);
    assert_eq!(
        since(&target, start),
        vec![
            Effect::AppendChild { parent: 0, node: 1 },
            Effect::InsertBefore { parent: 0, node: 3, sibling: 1 },
        ]
    );
}

#[test]
fn a_list_is_moved_and_removed_child_by_child() {
    let mut target = Target::new();
    let root = target.adopt();
    let out = texts(&[("a", "1"), ("b", "2")]).patch(&mut target, root, None, None);
    let start = target.len();
    out.move_to_last(&mut target, root);
    out.move_before(&mut target, root, 9);
    out.remove(&mut target, root);
    assert_eq!(
        since(&target, start),
        vec![
            Effect::AppendChild { parent: 0, node: 3 },
            Effect::AppendChild { parent: 0, node: 1 },
            Effect::InsertBefore { parent: 0, node: 3, sibling: 9 },
            Effect::InsertBefore { parent: 0, node: 1, sibling: 9 },
            Effect::RemoveChild { parent: 0, node: 3 },
            Effect::RemoveChild { parent: 0, node: 1 },
        ]
    );
}

#[test]
fn an_empty_list_has_no_node() {
    let mut target = Target::new();
    let root = target.adopt();
    let empty: Vec<VNode> = Vec::new();
    let out = VList::from(empty).patch(&mut target, root, None, None);
    assert_eq!(out.dom_node(), None);
    assert_eq!(out.len(), 0);
    assert_eq!(target.len(), 1);
}

/// A small stand-in for a document: it replays a record and keeps, for each
/// node, its children, and the listeners that are attached.
struct Replay {
    children: Vec<(Handle, Vec<Handle>)>,
    listeners: Vec<Handle>,
}

impl Replay {
    fn new() -> Replay {
        Replay { children: Vec::new(), listeners: Vec::new() }
    }

    fn children_of(&mut self, parent: Handle) -> &mut Vec<Handle> {
        if !self.children.iter().any(|(node, _)| *node == parent) {
            self.children.push((parent, Vec::new()));
        }
        &mut self.children.iter_mut().find(|(node, _)| *node == parent).unwrap().1
    }

    fn detach(&mut self, node: Handle) {
        for (_, children) in self.children.iter_mut() {
            children.retain(|child| *child != node);
        }
    }

    fn apply(&mut self, effect: &Effect) {
        match effect {
            Effect::AppendChild { parent, node } => {
                self.detach(*node);
                self.children_of(*parent).push(*node);
            }
            Effect::InsertBefore { parent, node, sibling } => {
                self.detach(*node);
                let children = self.children_of(*parent);
                let at = children.iter().position(|child| child == sibling).unwrap();
                children.insert(at, *node);
            }
            Effect::RemoveChild { parent, node } => {
                let children = self.children_of(*parent);
                let at = children.iter().position(|child| child == node).unwrap();
                children.remove(at);
            }
            Effect::AddEventListener { listener, .. } => self.listeners.push(*listener),
            Effect::RemoveEventListener { listener } => {
                let at = self.listeners.iter().position(|held| held == listener).unwrap();
                self.listeners.remove(at);
            }
            _ => {}
        }
    }
}

/// A tree that is rendered and then removed leaves neither nodes nor
/// listeners behind.
#[test]
fn rendering_and_removing_leaves_nothing() {
    let mut inner = el(("li", vec![("class", "x")], h(txt("one"))));
    inner.set_events(vec![ev(("click", 1)), ev(("input", 2))]);
    let tree = h(el((
        "ul",
        h(li(vec![("a", h(inner)), ("b", h(txt("two"))), ("c", h(card()))])),
    )));
    let mut target = Target::new();
    let root = target.adopt();
    let out = tree.patch(&mut target, root, None, None);
    let mut replay = Replay::new();
    for effect in target.effects().iter() {
        replay.apply(effect);
    }
    assert_eq!(replay.children_of(root).clone(), vec![1]);
    assert_eq!(replay.listeners.len(), 3);
    let start = target.len();
    out.remove(&mut target, root);
    for effect in target.effects()[start..].iter() {
        replay.apply(effect);
    }
    for (_, children) in replay.children.iter() {
        assert_eq!(children.clone(), vec![]);
    }
    assert_eq!(replay.listeners.clone(), vec![]);
}

/// What the replayed record shows is what the new tree describes.
#[test]
fn the_replayed_record_shows_the_children_in_their_new_order() {
    let mut target = Target::new();
    let root = target.adopt();
    let old = texts(&[("a", "1"), ("b", "2"), ("c", "3"), ("d", "4")]).patch(&mut target, root, None, None);
    let out = texts(&[("d", "4"), ("x", "9"), ("b", "2"), ("a", "1")]).patch(&mut target, root, None, Some(old));
    let mut replay = Replay::new();
    for effect in target.effects().iter() {
        replay.apply(effect);
    }
    let shown = replay.children_of(root).clone();
    let expected: Vec<Handle> = match &out {
        VNode::List(list) => (0..list.len()).map(|i| list.node(i).dom_node().unwrap()).collect(),
        _ => unreachable!(),
    };
    assert_eq!(shown, expected);
    assert_eq!(out.to_string(), "4921");
}

fn arrangements(items: &[&'static str]) -> Vec<Vec<&'static str>> {
    if items.is_empty() {
        return vec![vec![]];
    }
    let mut all = Vec::new();
    for i in 0..items.len() {
        let mut rest = items.to_vec();
        let first = rest.remove(i);
        for mut arrangement in arrangements(&rest) {
            arrangement.insert(0, first);
            all.push(arrangement);
        }
    }
    all
}

fn selections(items: &[&'static str]) -> Vec<Vec<&'static str>> {
    let mut all = Vec::new();
    for mask in 0..(1u32 << items.len()) {
        let mut selection = Vec::new();
        for (i, item) in items.iter().enumerate() {
            if mask & (1 << i) != 0 {
                selection.push(*item);
            }
        }
        all.push(selection);
    }
    all
}

fn keyed_texts(keys: &[&'static str]) -> VList {
    let mut children = Vec::new();
    for key in keys {
        children.push((*key, h(txt(*key))));
    }
    li(children)
}

/// Wherever the old children keep their order, the replayed record shows
/// the children in their new order, whatever was added and removed.
#[test]
fn kept_order_is_shown_in_the_new_order() {
    let keys = ["a", "b", "c", "d"];
    let mut tried = 0;
    for old in selections(&keys) {
        let mut old_keys = IndexSet::new();
        for key in &old {
            old_keys.insert(key.to_string());
        }
        for selection in selections(&keys) {
            for new in arrangements(&selection) {
                if has_dirty_order(&keyed_texts(&new), &old_keys) {
                    continue;
                }
                tried += 1;
                let mut target = Target::new();
                let root = target.adopt();
                let tail = target.create_text("tail");
                target.append_child(root, tail);
                let previous = keyed_texts(&old).patch(&mut target, root, Some(tail), None);
                // A list that is built where none was goes to the end: move what follows it behind.
                target.append_child(root, tail);
                let out = keyed_texts(&new).patch(&mut target, root, Some(tail), Some(previous));
                let mut replay = Replay::new();
                for effect in target.effects().iter() {
                    replay.apply(effect);
                }
                let mut expected = Vec::new();
                for i in 0..out.len() {
                    expected.push(out.node(i).dom_node().unwrap());
                }
                expected.push(tail);
                assert_eq!(replay.children_of(root).clone(), expected);
            }
        }
    }
    assert_eq!(tried, 729);
}

/// The sweep moves only the old children that changed their position: in
/// one sweep it does not reach every order.
#[test]
fn the_sweep_is_a_single_pass() {
    let mut target = Target::new();
    let root = target.adopt();
    let old = texts(&[("a", "a"), ("b", "b")]).patch(&mut target, root, None, None);
    let start = target.len();
    let out = texts(&[("c", "c"), ("b", "b"), ("d", "d"), ("a", "a")]).patch(&mut target, root, None, Some(old));
    assert_eq!(
        since(&target, start),
        vec![
            create_text(5, "d"),
            Effect::InsertBefore { parent: 0, node: 5, sibling: 3 },
            create_text(7, "c"),
            Effect::InsertBefore { parent: 0, node: 7, sibling: 1 },
            Effect::AppendChild { parent: 0, node: 3 },
        ]
    );
    let mut replay = Replay::new();
    for effect in target.effects().iter() {
        replay.apply(effect);
    }
    assert_eq!(replay.children_of(root).clone(), vec![5, 7, 1, 3]);
    assert_eq!(out.to_string(), "cbda");
}
