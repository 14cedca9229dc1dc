use papito_dom::model::Pass;
use papito_dom::scheduler::Notifier;
use papito_dom::scheduler::RenderRequest;
use papito_dom::target::Effect;
use papito_dom::target::Hook;
use papito_dom::target::Target;
use papito_dom::traits::hands_on;
use papito_dom::traits::refresh;
use papito_dom::traits::Component;
use papito_dom::traits::Lifecycle;
use papito_dom::traits::Render;
use papito_dom::vcomponent::VComponent;
use papito_dom::vnode::VNode;
use papito_dom::{comp, el, h, li, txt};
use std::cell::Cell;
use std::cell::RefCell;
use std::rc::Rc;

/// What a test component counts and keeps.
#[derive(Default)]
struct Log {
    created: Cell<u32>,
    mounted: Cell<u32>,
    updated: Cell<u32>,
    destroyed: Cell<u32>,
    rendered: Cell<u32>,
    updates: Cell<u32>,
    notifier: RefCell<Option<Notifier>>,
}

impl PartialEq for Log {
    fn eq(&self, _: &Log) -> bool {
        true
    }
}

fn bump(cell: &Cell<u32>) {
    cell.set(cell.get() + 1);
}

#[derive(Clone)]
struct Props {
    label: &'static str,
    log: Rc<Log>,
}

impl PartialEq for Props {
    fn eq(&self, other: &Props) -> bool {
        self.label == other.label
    }
}

struct Label {
    label: Cell<&'static str>,
    log: Rc<Log>,
    notifier: Notifier,
}

impl Component for Label {
    type Props = Props;

    fn create(props: Props, notifier: Notifier) -> Self {
        *props.log.notifier.borrow_mut() = Some(notifier.clone());
        Label { label: Cell::new(props.label), log: props.log, notifier }
    }

    fn update(&self, props: Props) {
        bump(&self.log.updates);
        self.label.set(props.label);
        self.notifier.notify();
    }

    fn eq_props(&self, rhs: &Props) -> bool {
        self.label.get() == rhs.label
    }
}

impl Lifecycle for Label {
    fn created(&self) {
        bump(&self.log.created);
    }

    fn mounted(&self) {
        bump(&self.log.mounted);
    }

    fn updated(&self) {
        bump(&self.log.updated);
    }

    fn destroyed(&self) {
        bump(&self.log.destroyed);
    }
}

impl Render for Label {
    fn render(&self) -> VNode {
        bump(&self.log.rendered);
        h(el(("b", h(txt(self.label.get())))))
    }
}

struct Frame {
    log: Rc<Log>,
    inner: Rc<Log>,
}

impl Component for Frame {
    type Props = (Rc<Log>, Rc<Log>);

    fn create(props: (Rc<Log>, Rc<Log>), _: Notifier) -> Self {
        Frame { log: props.0, inner: props.1 }
    }

    fn update(&self, _: (Rc<Log>, Rc<Log>)) {
        bump(&self.log.updates);
    }

    fn eq_props(&self, _: &(Rc<Log>, Rc<Log>)) -> bool {
        true
    }
}

impl Lifecycle for Frame {
    fn created(&self) {
        bump(&self.log.created);
    }

    fn mounted(&self) {
        bump(&self.log.mounted);
    }

    fn updated(&self) {
        bump(&self.log.updated);
    }

    fn destroyed(&self) {
        bump(&self.log.destroyed);
    }
}

impl Render for Frame {
    fn render(&self) -> VNode {
        bump(&self.log.rendered);
        h(el((
            "div",
            h(li(vec![
                ("title", h(txt("frame"))),
                ("label", h(comp::<Label>(Props { label: "in", log: self.inner.clone() }))),
            ])),
        )))
    }
}

fn counts(log: &Log) -> (u32, u32, u32, u32, u32) {
    (log.created.get(), log.mounted.get(), log.updated.get(), log.destroyed.get(), log.rendered.get())
}

fn lifecycle(component: usize, hook: Hook) -> Effect {
    Effect::Lifecycle { component, hook }
}

fn since(target: &Target, start: usize) -> Vec<Effect> {
    target.effects()[start..].to_vec()
}

fn component_of(node: &VNode) -> &VComponent {
    match node {
        VNode::Component(component) => component,
        _ => unreachable!(),
    }
}

#[test]
fn a_component_is_created_rendered_and_mounted() {
    let log = Rc::new(Log::default());
    let mut target = Target::new();
    let root = target.adopt();
    let node = h(comp::<Label>(Props { label: "a", log: log.clone() }));
    assert!(component_of(&node).pass() == Pass::Pending);
    assert_eq!(component_of(&node).instance_id(), None);
    let out = node.patch(&mut target, root, None, None);
    assert_eq!(counts(&log), (1, 1, 0, 0, 1));
    assert!(component_of(&out).pass() == Pass::Mounted);
    assert_eq!(component_of(&out).instance_id(), Some(1));
    assert_eq!(out.dom_node(), Some(2));
    assert_eq!(out.to_string(), "<b>a</b>");
    assert!(component_of(&out).rendered().unwrap().to_string() == "<b>a</b>");
    assert_eq!(
        since(&target, 1),
        vec![
            lifecycle(1, Hook::Created),
            Effect::CreateElement { node: 2, tag: "b".to_string() },
            Effect::CreateText { node: 3, content: "a".to_string() },
            Effect::AppendChild { parent: 2, node: 3 },
            Effect::AppendChild { parent: 0, node: 2 },
            lifecycle(1, Hook::Mounted),
        ]
    );
    assert_eq!(target.remaining_depth(), usize::MAX);
}

/// Rendering the same component type again keeps the instance: `created`
/// and `mounted` fire once over both passes.
#[test]
fn a_component_of_the_same_type_is_reused() {
    let log = Rc::new(Log::default());
    let mut target = Target::new();
    let root = target.adopt();
    let old = h(comp::<Label>(Props { label: "a", log: log.clone() })).patch(&mut target, root, None, None);
    let start = target.len();
    let unused = Rc::new(Log::default());
    let out = h(comp::<Label>(Props { label: "a", log: unused.clone() })).patch(&mut target, root, None, Some(old));
    assert_eq!(counts(&log), (1, 1, 0, 0, 1));
    assert_eq!(counts(&unused), (0, 0, 0, 0, 0));
    assert_eq!(log.updates.get(), 0);
    assert!(component_of(&out).pass() == Pass::Propagated);
    assert_eq!(component_of(&out).instance_id(), Some(1));
    assert_eq!(since(&target, start), vec![]);
}

/// New props that differ reach the instance, which asks to be rendered
/// again.
#[test]
fn props_that_differ_are_handed_to_the_instance() {
    let log = Rc::new(Log::default());
    let mut target = Target::new();
    let root = target.adopt();
    let old = h(comp::<Label>(Props { label: "a", log: log.clone() })).patch(&mut target, root, None, None);
    assert!(!target.take_render_request());
    let start = target.len();
    let out = h(comp::<Label>(Props { label: "z", log: log.clone() })).patch(&mut target, root, None, Some(old));
    assert_eq!(log.updates.get(), 1);
    assert_eq!(counts(&log), (1, 1, 1, 0, 2));
    assert!(component_of(&out).pass() == Pass::Updated);
    assert_eq!(
        since(&target, start),
        vec![Effect::SetText { node: 3, content: "z".to_string() }, lifecycle(1, Hook::Updated)]
    );
    assert_eq!(out.to_string(), "<b>z</b>");
    assert!(target.take_render_request());
    assert!(!target.take_render_request());
}

/// A component of another type in the same place: the old instance is
/// destroyed, the new one created and mounted.
#[test]
fn a_component_of_another_type_replaces_the_old_one() {
    let label = Rc::new(Log::default());
    let frame = Rc::new(Log::default());
    let inner = Rc::new(Log::default());
    let mut target = Target::new();
    let root = target.adopt();
    let old = h(comp::<Label>(Props { label: "a", log: label.clone() })).patch(&mut target, root, None, None);
    let start = target.len();
    let out = h(comp::<Frame>((frame.clone(), inner.clone()))).patch(&mut target, root, None, Some(old));
    assert_eq!(counts(&label), (1, 1, 0, 1, 1));
    assert_eq!(counts(&frame), (1, 1, 0, 0, 1));
    assert_eq!(counts(&inner), (1, 1, 0, 0, 1));
    assert_eq!(component_of(&out).instance_id(), Some(start + 3));
    let effects = since(&target, start);
    assert_eq!(effects[0], Effect::RemoveChild { parent: 2, node: 3 });
    assert_eq!(effects[1], Effect::RemoveChild { parent: 0, node: 2 });
    assert_eq!(effects[2], lifecycle(1, Hook::Destroyed));
    assert_eq!(effects[3], lifecycle(start + 3, Hook::Created));
    assert_eq!(effects[effects.len() - 1], lifecycle(start + 3, Hook::Mounted));
    assert_eq!(out.to_string(), "<div>frame<b>in</b></div>");
}

/// The notifier of a nested component fires: the next pass renders that
/// component again and passes through its ancestor without rendering it.
#[test]
fn a_dirty_component_is_reached_through_a_clean_ancestor() {
    let frame = Rc::new(Log::default());
    let inner = Rc::new(Log::default());
    let mut target = Target::new();
    let root = target.adopt();
    let tree = h(el(("main", h(comp::<Frame>((frame.clone(), inner.clone()))))))
        .patch(&mut target, root, None, None);
    assert_eq!(counts(&frame), (1, 1, 0, 0, 1));
    assert_eq!(counts(&inner), (1, 1, 0, 0, 1));

    let start = target.len();
    let tree = tree.dom_render(&mut target, root, None);
    assert_eq!(since(&target, start), vec![]);
    assert_eq!(counts(&frame), (1, 1, 0, 0, 1));
    assert_eq!(counts(&inner), (1, 1, 0, 0, 1));

    inner.notifier.borrow().as_ref().unwrap().notify();
    assert!(target.take_render_request());
    let tree = tree.dom_render(&mut target, root, None);
    assert_eq!(counts(&frame), (1, 1, 0, 0, 1));
    assert_eq!(counts(&inner), (1, 1, 1, 0, 2));
    let effects = since(&target, start);
    assert_eq!(effects.len(), 1);
    assert!(matches!(effects[0], Effect::Lifecycle { hook: Hook::Updated, .. }));

    let start = target.len();
    let tree = tree.dom_render(&mut target, root, None);
    assert_eq!(since(&target, start), vec![]);
    assert_eq!(counts(&inner), (1, 1, 1, 0, 2));
    assert_eq!(tree.to_string(), "<main><div>frame<b>in</b></div></main>");
}

#[test]
fn a_component_is_removed_with_what_it_rendered() {
    let frame = Rc::new(Log::default());
    let inner = Rc::new(Log::default());
    let mut target = Target::new();
    let root = target.adopt();
    let out = h(comp::<Frame>((frame.clone(), inner.clone()))).patch(&mut target, root, None, None);
    let start = target.len();
    out.remove(&mut target, root);
    assert_eq!(counts(&frame), (1, 1, 0, 1, 1));
    assert_eq!(counts(&inner), (1, 1, 0, 1, 1));
    let effects = since(&target, start);
    assert!(matches!(effects[effects.len() - 1], Effect::Lifecycle { hook: Hook::Destroyed, .. }));
    assert_eq!(
        effects.iter().filter(|effect| matches!(effect, Effect::Lifecycle { hook: Hook::Destroyed, .. })).count(),
        2
    );
    assert_eq!(
        effects.iter().filter(|effect| matches!(effect, Effect::RemoveChild { parent: 0, .. })).count(),
        1
    );
}

#[test]
fn a_component_moves_with_what_it_rendered() {
    let log = Rc::new(Log::default());
    let mut target = Target::new();
    let root = target.adopt();
    let out = h(comp::<Label>(Props { label: "a", log })).patch(&mut target, root, None, None);
    let start = target.len();
    out.move_to_last(&mut target, root);
    out.move_before(&mut target, root, 9);
    assert_eq!(
        since(&target, start),
        vec![
            Effect::AppendChild { parent: 0, node: 2 },
            Effect::InsertBefore { parent: 0, node: 2, sibling: 9 },
        ]
    );
}

#[test]
fn nothing_is_rendered_deeper_than_the_target_allows() {
    let frame = Rc::new(Log::default());
    let inner = Rc::new(Log::default());
    let mut target = Target::with_depth(1);
    let root = target.adopt();
    let out = h(comp::<Frame>((frame.clone(), inner.clone()))).patch(&mut target, root, None, None);
    assert_eq!(counts(&frame), (1, 1, 0, 0, 1));
    assert_eq!(counts(&inner), (0, 0, 0, 0, 0));
    assert_eq!(out.to_string(), "<div>frame</div>");
    assert_eq!(target.remaining_depth(), 1);

    let mut shallow = Target::with_depth(0);
    let root = shallow.adopt();
    let out = h(comp::<Frame>((frame.clone(), inner.clone()))).patch(&mut shallow, root, None, None);
    assert!(component_of(&out).pass() == Pass::Skipped);
    assert_eq!(shallow.len(), 1);
    assert_eq!(counts(&frame), (1, 1, 0, 0, 1));
}

#[test]
fn a_render_pass_with_the_state_given() {
    let log = Rc::new(Log::default());
    let mut target = Target::new();
    let root = target.adopt();
    let component = comp::<Label>(Props { label: "a", log: log.clone() });
    let component = component.render_pass(false, &mut target, root, None);
    assert!(component.pass() == Pass::Mounted);
    let component = component.render_pass(false, &mut target, root, None);
    assert!(component.pass() == Pass::Propagated);
    assert_eq!(counts(&log), (1, 1, 0, 0, 1));
    let component = component.render_pass(true, &mut target, root, None);
    assert!(component.pass() == Pass::Updated);
    assert_eq!(counts(&log), (1, 1, 1, 0, 2));
}

#[test]
fn requests_for_a_pass_are_coalesced() {
    let request = RenderRequest::new();
    let sender = request.sender();
    let other = sender.clone();
    assert!(!request.receive());
    sender.send();
    other.send();
    assert!(request.receive());
    assert!(!request.receive());
}

#[test]
fn props_are_handed_over_only_if_they_differ() {
    let log = Rc::new(Log::default());
    let mut target = Target::new();
    let root = target.adopt();
    h(comp::<Label>(Props { label: "a", log: log.clone() })).patch(&mut target, root, None, None);
    let notifier = log.notifier.borrow().as_ref().unwrap().clone();
    let label = Label { label: Cell::new("a"), log: log.clone(), notifier };
    assert!(!refresh(&label, Props { label: "a", log: log.clone() }));
    assert_eq!(log.updates.get(), 0);
    assert!(refresh(&label, Props { label: "b", log: log.clone() }));
    assert_eq!(log.updates.get(), 1);
    assert_eq!(label.label.get(), "b");
}

#[test]
fn props_are_handed_on_exactly_if_they_are_not_the_same() {
    assert!(hands_on(false));
    assert!(!hands_on(true));
}

#[test]
fn a_component_is_mounted_once_it_has_rendered() {
    let log = Rc::new(Log::default());
    let component = comp::<Label>(Props { label: "a", log: log.clone() });
    assert!(component.is_unrendered());
    assert!(!component.is_mounted());
    assert!(component.is_first_pass());
    let mut target = Target::new();
    let root = target.adopt();
    let component = component.render_pass(false, &mut target, root, None);
    assert!(component.is_mounted());
    assert!(!component.is_unrendered());
    assert!(component.is_first_pass());
    component.well_formed_throughout();
    let component = component.render_pass(true, &mut target, root, None);
    assert!(component.is_mounted());
    assert!(!component.is_first_pass());
    let start = target.len();
    component.remove(&mut target, root);
    assert_eq!(
        since(&target, start),
        vec![
            Effect::RemoveChild { parent: 2, node: 3 },
            Effect::RemoveChild { parent: 0, node: 2 },
            lifecycle(1, Hook::Destroyed),
        ]
    );
    assert_eq!(counts(&log), (1, 1, 1, 1, 2));
}

#[test]
fn a_component_that_was_left_unrendered_is_passed_over_when_its_tree_is_removed() {
    let log = Rc::new(Log::default());
    let mut shallow = Target::with_depth(0);
    let root = shallow.adopt();
    let out = h(el(("p", h(comp::<Label>(Props { label: "a", log: log.clone() }))))).patch(
        &mut shallow,
        root,
        None,
        None,
    );
    assert!(out.is_first_pass());
    assert_eq!(out.to_string(), "<p></p>");
    let start = shallow.len();
    out.remove(&mut shallow, root);
    assert_eq!(since(&shallow, start), vec![Effect::RemoveChild { parent: 0, node: 1 }]);
    assert_eq!(counts(&log), (0, 0, 0, 0, 0));
}

#[test]
fn a_component_of_another_type_takes_the_place_of_one_left_unrendered() {
    let frame = Rc::new(Log::default());
    let inner = Rc::new(Log::default());
    let log = Rc::new(Log::default());
    let mut shallow = Target::with_depth(0);
    let root = shallow.adopt();
    let old = comp::<Frame>((frame.clone(), inner.clone())).patch(&mut shallow, root, None, None);
    assert!(!old.is_mounted());
    let mut target = Target::new();
    let root = target.adopt();
    let out = comp::<Label>(Props { label: "a", log: log.clone() }).patch(&mut target, root, None, Some(old));
    assert!(out.is_mounted());
    assert_eq!(counts(&frame), (0, 0, 0, 0, 0));
    assert_eq!(counts(&log), (1, 1, 0, 0, 1));
    assert_eq!(
        since(&target, 1),
        vec![
            lifecycle(1, Hook::Created),
            Effect::CreateElement { node: 2, tag: "b".to_string() },
            Effect::CreateText { node: 3, content: "a".to_string() },
            Effect::AppendChild { parent: 2, node: 3 },
            Effect::AppendChild { parent: 0, node: 2 },
            lifecycle(1, Hook::Mounted),
        ]
    );
}

#[test]
fn a_component_is_rendered_without_a_target_once() {
    let log = Rc::new(Log::default());
    let node = h(comp::<Label>(Props { label: "a", log: log.clone() }));
    let node = node.server_rendered(3);
    assert_eq!(node.to_string(), "<b>a</b>");
    assert_eq!((log.created.get(), log.rendered.get()), (1, 1));
    assert!(!component_of(&node).is_unrendered());
    assert!(!node.is_unrendered_throughout());
    let fresh = h(el(("p", h(li(vec![h(txt("x")), h(comp::<Label>(Props { label: "b", log: log.clone() }))])))));
    assert!(fresh.is_unrendered_throughout());
    let served = fresh.server_rendered(3);
    assert!(!served.is_unrendered_throughout());
    assert_eq!(served.to_string(), "<p>x<b>b</b></p>");
    assert_eq!((log.created.get(), log.rendered.get()), (2, 2));
}

#[test]
fn components_made_for_one_type_are_of_one_type() {
    let log = Rc::new(Log::default());
    let a = comp::<Label>(Props { label: "a", log: log.clone() });
    let b = comp::<Label>(Props { label: "b", log: log.clone() });
    let frame = comp::<Frame>((log.clone(), log.clone()));
    assert!(a.is_same_type(&b));
    assert!(!a.is_same_type(&frame));
    assert!(!frame.is_same_type(&b));
}

struct Stale {
    log: Rc<Log>,
}

impl Component for Stale {
    type Props = Rc<Log>;

    fn create(props: Rc<Log>, _: Notifier) -> Self {
        Stale { log: props }
    }

    fn update(&self, _: Rc<Log>) {}

    fn eq_props(&self, _: &Rc<Log>) -> bool {
        true
    }
}

impl Lifecycle for Stale {}

impl Render for Stale {
    fn render(&self) -> VNode {
        bump(&self.log.rendered);
        let mut button = el(("button", h(txt("go"))));
        button.set_events(vec![papito_dom::ev(("click", 7))]);
        let mut elsewhere = Target::new();
        h(button).patch(&mut elsewhere, 0, None, None)
    }
}

#[test]
fn what_an_instance_returns_is_patched_as_it_was_described() {
    let log = Rc::new(Log::default());
    let mut target = Target::new();
    let root = target.adopt();
    let out = comp::<Stale>(log.clone()).patch(&mut target, root, None, None);
    assert!(out.is_mounted());
    assert_eq!(
        since(&target, 1),
        vec![
            lifecycle(1, Hook::Created),
            Effect::CreateElement { node: 2, tag: "button".to_string() },
            Effect::CreateText { node: 3, content: "go".to_string() },
            Effect::AppendChild { parent: 2, node: 3 },
            Effect::AddEventListener { listener: 5, node: 2, event_type: "click".to_string(), callback: 7 },
            Effect::AppendChild { parent: 0, node: 2 },
            lifecycle(1, Hook::Mounted),
        ]
    );
}

#[test]
fn the_default_depth_leaves_no_component_out() {
    let target = Target::new();
    assert_eq!(target.remaining_depth(), usize::MAX);
    assert_eq!(papito_dom::target::DEFAULT_DEPTH, usize::MAX);
}
