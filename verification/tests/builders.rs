use papito_dom::attributes::Attributes;
use papito_dom::attributes::ClassString;
use papito_dom::scheduler::Notifier;
use papito_dom::traits::Component;
use papito_dom::traits::Lifecycle;
use papito_dom::traits::Render;
use papito_dom::vcomponent::VComponent;
use papito_dom::velement::VElement;
use papito_dom::vnode::VNode;
use papito_dom::vtext::VText;
use papito_dom::{comp, el, ev, h, li, txt};
use std::borrow::Cow;

fn div() -> VNode {
    VNode::Element(VElement::new("div".into(), None, None, None, false))
}

#[test]
fn should_create_text_vnode() {
    let node = h(txt("Hello World"));
    assert!(VNode::Text(VText::new("Hello World".into())) == node);
}

#[test]
fn should_create_empty_velement() {
    let node = h(el(("div", ())));
    assert!(VNode::Element(VElement::new("div".into(), None, None, None, false)) == node);
}

#[test]
fn should_create_texted_velement() {
    let node = h(el(("span", h(txt("Hello World")))));
    assert!(
        VNode::Element(VElement::new(
            "span".into(),
            None,
            None,
            Some(VNode::Text(VText::new("Hello World".into()))),
            false,
        )) == node
    );
}

#[test]
fn should_create_self_closing_velement() {
    let node = h(el(("br", true)));
    assert!(VNode::Element(VElement::new("br".into(), None, None, None, true)) == node);
}

#[test]
fn should_create_vlist() {
    let node = h(li(vec![
        ("1", h(el(("div", ())))),
        ("2", h(el(("div", ())))),
        ("3", h(el(("div", ())))),
    ]));
    assert!(
        VNode::List(
            vec![(Cow::from("1"), div()), (Cow::from("2"), div()), (Cow::from("3"), div())].into()
        ) == node
    );
}

#[test]
fn should_create_vlist_without_keys() {
    let node = h(li(vec![h(el(("div", ()))), h(el(("div", ()))), h(el(("div", ())))]));
    assert!(
        VNode::List(
            vec![(Cow::from("0"), div()), (Cow::from("1"), div()), (Cow::from("2"), div())].into()
        ) == node
    );
}

#[test]
fn should_create_vlist_from_vec() {
    let list = vec![h(el(("div", ()))), h(el(("div", ()))), h(el(("div", ())))];
    let node = h(li(list));
    assert!(
        VNode::List(
            vec![(Cow::from("0"), div()), (Cow::from("1"), div()), (Cow::from("2"), div())].into()
        ) == node
    );
}

#[test]
fn should_create_velement_with_class() {
    let node = h(el(("div", vec![("class", "container")])));
    assert!(
        VNode::Element(VElement::new("div".into(), Some("container".into()), None, None, false))
            == node
    );
}

#[test]
fn should_create_velement_with_class_with_alt_syntax() {
    let node = h(el(("div", vec![("class", "container")])));
    assert!(
        VNode::Element(VElement::new("div".into(), Some("container".into()), None, None, false))
            == node
    );
}

#[test]
fn should_create_velement_with_attributes() {
    let node = h(el(("div", vec![("style", "background-color: black;")])));
    assert!(
        VNode::Element(VElement::new(
            "div".into(),
            None,
            Some(vec![("style", "background-color: black;")].into()),
            None,
            false
        )) == node
    );
}

#[test]
fn should_create_nested_structure() {
    let node = h(el(("div", h(el(("span", ()))))));
    assert!(
        VNode::Element(VElement::new(
            "div".into(),
            None,
            None,
            Some(VNode::Element(VElement::new("span".into(), None, None, None, false))),
            false
        )) == node
    );
}

#[test]
fn should_create_heterogenous_vlist() {
    let node = h(li(vec![
        h(el(("div", ()))),
        h(txt("Hello World")),
        h(li(vec![h(el(("div", ()))), h(txt("Hello World"))])),
    ]));
    assert!(
        VNode::List(
            vec![
                VNode::Element(VElement::new("div".into(), None, None, None, false)),
                VNode::Text(VText::new("Hello World".into())),
                VNode::List(
                    vec![
                        VNode::Element(VElement::new("div".into(), None, None, None, false)),
                        VNode::Text(VText::new("Hello World".into()))
                    ]
                    .into()
                )
            ]
            .into()
        ) == node
    );
}

#[test]
fn should_create_empty_input_with_event() {
    let mut element = el(("input", ()));
    element.set_events(vec![ev(("input", 1))]);
    let node = h(element);
    assert!(VNode::Element(VElement::new("input".into(), None, None, None, false)) == node);
}

#[test]
fn should_create_empty_input_with_attribute_and_event() {
    let mut element = el(("input", vec![("disabled", "true")]));
    element.set_events(vec![ev(("input", 1))]);
    let node = h(element);
    assert!(
        VNode::Element(VElement::new(
            "input".into(),
            None,
            Some(vec![("disabled", "true")].into()),
            None,
            false
        )) == node
    );
}

#[test]
fn should_create_texted_div_with_attribute_and_event() {
    let mut element = el(("div", vec![("style", "color: white;")], h(txt("Hello"))));
    element.set_events(vec![ev(("input", 1))]);
    let node = h(element);
    assert!(
        VNode::Element(VElement::new(
            "div".into(),
            None,
            Some(vec![("style", "color: white;")].into()),
            Some(VNode::Text(VText::new("Hello".into()))),
            false
        )) == node
    );
}

#[test]
fn should_create_texted_div_with_event() {
    let mut element = el(("div", h(txt("Hello"))));
    element.set_events(vec![ev(("input", 1))]);
    let node = h(element);
    assert!(
        VNode::Element(VElement::new(
            "div".into(),
            None,
            None,
            Some(VNode::Text(VText::new("Hello".into()))),
            false
        )) == node
    );
}

struct Button;

impl Component for Button {
    type Props = ();

    fn create(_: (), _: Notifier) -> Self {
        Button
    }

    fn update(&self, _: ()) {}

    fn eq_props(&self, _: &()) -> bool {
        true
    }
}

impl Lifecycle for Button {}

impl Render for Button {
    fn render(&self) -> VNode {
        h(el(("button", h(txt("Click")))))
    }
}

struct Other;

impl Component for Other {
    type Props = ();

    fn create(_: (), _: Notifier) -> Self {
        Other
    }

    fn update(&self, _: ()) {}

    fn eq_props(&self, _: &()) -> bool {
        true
    }
}

impl Lifecycle for Other {}

impl Render for Other {
    fn render(&self) -> VNode {
        h(txt("other"))
    }
}

#[test]
fn should_create_a_component() {
    let node = h(comp::<Button>(()));
    assert!(VNode::Component(VComponent::new::<Button>(())) == node);
}

#[test]
fn components_of_different_types_differ() {
    let node = h(comp::<Button>(()));
    assert!(VNode::Component(VComponent::new::<Other>(())) != node);
}

#[test]
fn lib_should_create_text_vnode() {
    let node = h(txt("Hello World"));
    assert!(VNode::Text(VText::new("Hello World".into())) == node);
}

#[test]
fn lib_should_create_empty_velement() {
    let node = h(el(("div", ())));
    assert!(VNode::Element(VElement::new("div".into(), None, None, None, false)) == node);
}

#[test]
fn lib_should_create_texted_velement() {
    let node = h(el(("span", h(txt("Hello World")))));
    assert!(
        VNode::Element(VElement::new(
            "span".into(),
            None,
            None,
            Some(VNode::Text(VText::new("Hello World".into()))),
            false,
        )) == node
    );
}

#[test]
fn lib_should_create_self_closing_velement() {
    let node = h(el(("br", true)));
    assert!(VNode::Element(VElement::new("br".into(), None, None, None, true)) == node);
}

#[test]
fn lib_should_create_vlist() {
    let node = h(li(vec![
        ("1", h(el(("div", ())))),
        ("2", h(el(("div", ())))),
        ("3", h(el(("div", ())))),
    ]));
    assert!(
        VNode::List(
            vec![(Cow::from("1"), div()), (Cow::from("2"), div()), (Cow::from("3"), div())].into()
        ) == node
    );
}

#[test]
fn lib_should_create_vlist_without_keys() {
    let node = h(li(vec![h(el(("div", ()))), h(el(("div", ()))), h(el(("div", ())))]));
    assert!(
        VNode::List(
            vec![(Cow::from("0"), div()), (Cow::from("1"), div()), (Cow::from("2"), div())].into()
        ) == node
    );
}

#[test]
fn lib_should_create_velement_with_class() {
    let node = h(el(("div", vec![("class", "container")])));
    assert!(
        VNode::Element(VElement::new("div".into(), Some("container".into()), None, None, false))
            == node
    );
}

#[test]
fn text_nodes_with_different_content_differ() {
    assert!(h(txt("a")) != h(txt("b")));
}

#[test]
fn elements_with_different_parts_differ() {
    assert!(h(el(("div", ()))) != h(el(("span", ()))));
    assert!(h(el(("div", true))) != h(el(("div", false))));
    assert!(h(el(("div", vec![("class", "a")]))) != h(el(("div", vec![("class", "b")]))));
    assert!(h(el(("div", vec![("id", "a")]))) != h(el(("div", vec![("id", "b")]))));
    assert!(h(el(("div", h(txt("a"))))) != h(el(("div", ()))));
    assert!(h(el(("div", ()))) != h(txt("div")));
}

#[test]
fn attributes_compare_without_order() {
    let one: Attributes = vec![("a", "1"), ("b", "2")].into();
    let two: Attributes = vec![("b", "2"), ("a", "1")].into();
    let three: Attributes = vec![("b", "2"), ("a", "3")].into();
    assert!(one == two);
    assert!(one != three);
}

#[test]
fn a_repeated_attribute_keeps_its_place_and_takes_the_later_value() {
    let attrs: Attributes = vec![("a", "1"), ("b", "2"), ("a", "3")].into();
    assert_eq!(attrs.len(), 2);
    assert_eq!(attrs.entry(0).0.as_str(), "a");
    assert_eq!(attrs.entry(0).1.as_str(), "3");
    assert_eq!(attrs.entry(1).0.as_str(), "b");
    assert_eq!(attrs.get("b").map(|v| v.as_str()), Some("2"));
    assert_eq!(attrs.get("c"), None);
}

#[test]
fn the_class_is_split_from_the_attributes_by_swap() {
    let attrs: Attributes = vec![("class", "c"), ("a", "1"), ("b", "2")].into();
    let (class, rest) = attrs.split_into_class_and_attrs();
    assert!(class == Some(ClassString::from("c")));
    let rest = rest.unwrap();
    assert_eq!(rest.len(), 2);
    assert_eq!(rest.entry(0).0.as_str(), "b");
    assert_eq!(rest.entry(1).0.as_str(), "a");
}

#[test]
fn lists_compare_without_order() {
    let one = h(li(vec![("a", h(txt("1"))), ("b", h(txt("2")))]));
    let two = h(li(vec![("b", h(txt("2"))), ("a", h(txt("1")))]));
    let three = h(li(vec![("b", h(txt("2"))), ("a", h(txt("3")))]));
    let four = h(li(vec![("b", h(txt("2")))]));
    assert!(one == two);
    assert!(one != three);
    assert!(one != four);
}

#[test]
fn a_repeated_key_keeps_its_place_and_takes_the_later_node() {
    let list = li(vec![("a", h(txt("1"))), ("b", h(txt("2"))), ("a", h(txt("3")))]);
    assert_eq!(list.len(), 2);
    assert_eq!(list.key(0).as_str(), "a");
    assert_eq!(list.key(1).as_str(), "b");
    assert!(*list.node(0) == h(txt("3")));
    assert_eq!(list.position("b"), Some(1));
    assert_eq!(list.position("c"), None);
}

#[test]
fn positions_become_keys_in_decimal() {
    let mut nodes = Vec::new();
    for _ in 0..12 {
        nodes.push(h(txt("x")));
    }
    let list = li(nodes);
    assert_eq!(list.len(), 12);
    assert_eq!(list.key(0).as_str(), "0");
    assert_eq!(list.key(9).as_str(), "9");
    assert_eq!(list.key(10).as_str(), "10");
    assert_eq!(list.key(11).as_str(), "11");
    assert_eq!(papito_dom::keys::index_key(407).as_str(), "407");
}
