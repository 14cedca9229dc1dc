use papito_dom::scheduler::Notifier;
use papito_dom::traits::Component;
use papito_dom::traits::Lifecycle;
use papito_dom::traits::Render;
use papito_dom::traits::RenderToString;
use papito_dom::vnode::VNode;
use papito_dom::{comp, el, h, li, txt};

#[test]
fn should_print_html_for_empty_div() {
    let node = h(el(("div", ())));
    assert_eq!(node.to_string(), "<div></div>");
}

#[test]
fn should_print_html_for_self_closing_br() {
    let node = h(el(("br", true)));
    assert_eq!(node.to_string(), "<br>");
}

#[test]
fn should_print_html_for_texted_div() {
    let node = h(el(("div", h(txt("Hello World")))));
    assert_eq!(node.to_string(), "<div>Hello World</div>");
}

#[test]
fn should_print_html_for_attributed_button() {
    let node = h(el((
        "button",
        vec![("class", "container"), ("style", "background-color: black;")],
        h(txt("Click")),
    )));
    assert_eq!(
        node.to_string(),
        r#"<button class="container" style="background-color: black;">Click</button>"#
    )
}

#[test]
fn should_print_html_for_nested_spans() {
    let node = h(el(("span", h(el(("span", ()))))));
    assert_eq!(node.to_string(), "<span><span></span></span>");
}

#[test]
fn should_print_html_for_ordered_list() {
    let node = h(el((
        "ol",
        h(li(vec![
            h(el(("li", h(txt("content"))))),
            h(el(("li", h(txt("content"))))),
            h(el(("li", h(txt("content"))))),
            h(el(("li", h(txt("content"))))),
        ])),
    )));
    assert_eq!(
        node.to_string(),
        "<ol><li>content</li><li>content</li><li>content</li><li>content</li></ol>"
    );
}

#[test]
fn should_print_html_for_list_of_text() {
    let node = h(el((
        "div",
        h(li(vec![h(txt("Hello")), h(txt("Hello")), h(txt("Hello")), h(txt("Hello"))])),
    )));
    assert_eq!(node.to_string(), "<div>HelloHelloHelloHello</div>");
}

#[test]
fn should_print_html_for_plain_list() {
    let node = h(li(vec![
        h(el(("div", ()))),
        h(el(("div", ()))),
        h(el(("div", ()))),
        h(el(("div", ()))),
    ]));
    assert_eq!(node.to_string(), "<div></div><div></div><div></div><div></div>");
}

struct Button;

impl Component for Button {
    type Props = ();

    fn create(_: (), _: Notifier) -> Self {
        Button
    }

    fn update(&self, _: ()) {}

    fn eq_props(&self, _: &()) -> bool {
        true
    }
}

impl Lifecycle for Button {}

impl Render for Button {
    fn render(&self) -> VNode {
        h(el(("button", h(txt("Click")))))
    }
}

struct Div;

impl Component for Div {
    type Props = ();

    fn create(_: (), _: Notifier) -> Self {
        Div
    }

    fn update(&self, _: ()) {}

    fn eq_props(&self, _: &()) -> bool {
        true
    }
}

impl Lifecycle for Div {}

impl Render for Div {
    fn render(&self) -> VNode {
        h(el(("div", h(comp::<Button>(())))))
    }
}

#[test]
fn should_print_html_for_component() {
    let mut node = h(comp::<Button>(()));
    assert_eq!(node.render_to_string(), "<button>Click</button>");
}

#[test]
fn should_print_html_for_nested_components() {
    let mut node = h(comp::<Div>(()));
    assert_eq!(node.render_to_string(), "<div><button>Click</button></div>");
}

#[test]
fn a_component_that_never_rendered_prints_nothing() {
    let node = h(comp::<Button>(()));
    assert_eq!(node.to_string(), "");
}

#[test]
fn a_self_closing_element_prints_neither_child_nor_closing_tag() {
    let node = h(el(("img", vec![("src", "a.png")], h(txt("ignored")), true)));
    assert_eq!(node.to_string(), r#"<img src="a.png">"#);
}

struct Twice;

impl Component for Twice {
    type Props = ();

    fn create(_: (), _: Notifier) -> Self {
        Twice
    }

    fn update(&self, _: ()) {}

    fn eq_props(&self, _: &()) -> bool {
        true
    }
}

impl Lifecycle for Twice {}

impl Render for Twice {
    fn render(&self) -> VNode {
        h(el(("div", h(comp::<Button>(()))))).server_rendered(2)
    }
}

#[test]
fn what_a_component_returns_rendered_is_kept_as_it_was_returned() {
    let node = h(comp::<Twice>(())).server_rendered(3);
    assert_eq!(node.to_string(), "<div><button>Click</button></div>");
}

#[test]
fn server_rendering_stops_at_the_depth_allowed() {
    let node = h(comp::<Div>(()));
    let node = node.server_rendered(1);
    assert_eq!(node.to_string(), "<div></div>");
    let node = h(comp::<Div>(()));
    let node = node.server_rendered(0);
    assert_eq!(node.to_string(), "");
}
