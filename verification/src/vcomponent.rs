//! Component nodes.

use crate::erased::Instance;
use crate::erased::same_type;
use crate::erased::is_kind_of;
use crate::erased::law_a_type_has_one_kind;
use crate::erased::seed_of;
use crate::erased::Props;
use crate::erased::SeedBox;
use crate::erased::SeedOf;
use crate::erased::type_id_of;
use crate::model::ComponentModel;
use crate::model::is_unbound;
use crate::model::lemma_unbound;
use crate::model::unbound;
use crate::model::option_size;
use crate::model::Pass;
use crate::model::size;
use crate::model::Tree;
use crate::patching::component_is_pass_of;
use crate::patching::component_is_patch_of;
use crate::patching::component_is_render_of;
use crate::patching::component_is_served;
use crate::patching::component_patch_effects;
use crate::patching::component_render_effects;
use crate::scheduler::flag_read;
use crate::scheduler::made_with;
use crate::scheduler::read_as;
use crate::scheduler::set_to;
use crate::scheduler::flag_new;
use crate::scheduler::flag_write;
use crate::scheduler::Notifier;
use crate::scheduler::RenderRequest;
use crate::target::Handle;
use crate::target::Hook;
use crate::target::DEFAULT_DEPTH;
use crate::target::Target;
use crate::traits::Component;
use crate::traits::RenderToString;
use crate::traits::ServerRender;
use crate::vnode::VNode;
use crate::vtext::VText;
use std::any::TypeId;
use std::cell::Cell;
use std::rc::Rc;
use vstd::prelude::*;

verus! {

/// An instance and the handle under which the target's record knows it.
pub struct Live {
    instance: Instance,
    id: Handle,
}

/// A component in a tree: a type, and either the props to make an instance
/// from or the instance with what it rendered last.
pub struct VComponent {
    type_id: TypeId,
    seed: Option<SeedBox>,
    live: Option<Live>,
    source: Ghost<Option<Box<Tree>>>,
    rendered: Option<Box<VNode>>,
    state_changed: Rc<Cell<bool>>,
    pass: Pass,
    served: Option<Box<VNode>>,
}

impl View for VComponent {
    type V = ComponentModel;

    closed spec fn view(&self) -> ComponentModel
        decreases self,
    {
        ComponentModel {
            kind: self.type_id,
            instance: match self.live {
                Some(live) => Some(live.id),
                None => None,
            },
            source: self.source@,
            rendered: match self.rendered {
                Some(rendered) => Some(Box::new((*rendered)@)),
                None => None,
            },
            pass: self.pass,
            served: match self.served {
                Some(served) => Some(Box::new((*served)@)),
                None => None,
            },
        }
    }
}

impl DeepView for VComponent {
    type V = ComponentModel;

    open spec fn deep_view(&self) -> ComponentModel {
        self@
    }
}

/// A component that keeps the props of another is otherwise as it was: it
/// shows the same, and its flag and its instance are those it had.
pub proof fn law_props_leave_the_rest(component: VComponent, new: VComponent)
    ensures
        component.with_props_of(new)@ == component@,
        component.with_props_of(new).flag() == component.flag(),
        component.with_props_of(new).instance() == component.instance(),
        component.with_props_of(new).seed() == if new.seed() is Some && component@.instance is None
            && component@.served is None {
            new.seed()
        } else {
            component.seed()
        },
{
}

/// A component is of the type for which one of its kind was made.
pub proof fn law_kind_tells_the_type<T: Component + 'static>(a: VComponent, b: VComponent)
    requires
        a.is_of::<T>(),
        a@.kind == b@.kind,
    ensures
        b.is_of::<T>(),
{
}

/// Two components that were made for one type are of one kind: a pass lets
/// the one live on in the place of the other.
pub proof fn law_components_of_one_type_are_of_one_kind<T: Component + 'static>(a: VComponent, b: VComponent)
    requires
        a.is_of::<T>(),
        b.is_of::<T>(),
    ensures
        a@.kind == b@.kind,
        lives_on(a, Some(b)) == b.with_props_of(a),
{
    law_a_type_has_one_kind::<T>(a.type_id, b.type_id);
}

/// A component that is patched against a mounted one that was made for the
/// same type lives on in it: the instance and the flag are those that were
/// there, nothing is made or mounted, and what the pass records is what one
/// pass over the previous component records.
pub proof fn law_component_made_for_the_same_type_lives_on<T: Component + 'static>(
    out: VComponent,
    new: VComponent,
    prior: VComponent,
    parent: Handle,
    next: Option<Handle>,
    depth: nat,
    requests: Rc<Cell<bool>>,
)
    requires
        new.is_of::<T>(),
        prior.is_of::<T>(),
        prior@.rendered is Some,
        component_is_patch_of(out@, new@, Some(prior@), depth),
        is_told(out, lives_on(new, Some(prior)), requests),
    ensures
        out.instance() == prior.instance(),
        out.flag() == prior.flag(),
        out@.instance == prior@.instance,
        out@.pass != Pass::Mounted,
        component_patch_effects(out@, new@, Some(prior@), parent, next) == component_render_effects(
            out@,
            prior@,
            parent,
            next,
        ),
{
    law_components_of_one_type_are_of_one_kind::<T>(new, prior);
    crate::laws::law_component_of_same_type_is_reused(out@, new@, prior@, parent, next, depth);
}

/// What an instance returned, as it is patched: a tree in which a binding
/// was attached before is taken as it was described.
pub fn described(node: VNode) -> (out: VNode)
    ensures
        out@ == unbound(node@),
        is_unbound(out@),
{
    proof {
        lemma_unbound(node@);
    }
    if node.is_unbound_throughout() {
        node
    } else {
        node.renewed()
    }
}

/// `fresh` is what the component rendered from: what its instance returned,
/// as it was patched.
pub open spec fn is_source_of(fresh: VNode, component: ComponentModel) -> bool {
    component.source == Some(Box::new(fresh@))
}

/// The component that goes into a pass where `new` is patched against
/// `previous`: the previous one, with the props of `new`, where it is of the
/// same type, and `new` itself otherwise.
pub open spec fn lives_on(new: VComponent, previous: Option<VComponent>) -> VComponent {
    match previous {
        Some(prior) => if prior@.kind == new@.kind {
            prior.with_props_of(new)
        } else {
            new
        },
        None => new,
    }
}

/// Where `prior` has its instance, that was offered the props that `new`
/// was made with, and took them over exactly if they differ from its own.
pub open spec fn is_handed_props(prior: VComponent, new: VComponent) -> bool {
    prior.instance() is Some && new.seed() is Some ==> exists|props: Props, updated: bool|
        new.seed()->0.gives(props) && #[trigger] prior.instance()->0.handed(props, updated)
}

/// What a pass that left `out` of `before` did behind the record, where
/// `requests` is the flag on which the target is asked for a pass.
///
/// A component that was mounted had its instance made by its own `create`,
/// from the props it kept and a notifier that raises the component's flag
/// and asks on `requests`; the instance was told that it was created, was
/// asked what it shows, and was told that it was mounted. What it showed
/// was patched as it was described. A component that
/// was updated had its flag lowered, and its instance was asked what it
/// shows and told that it was updated. In any other pass the instance
/// stays. The flag of a component is the same cell throughout.
pub open spec fn is_told(out: VComponent, before: VComponent, requests: Rc<Cell<bool>>) -> bool {
    &&& out.flag() == before.flag()
    &&& match out@.pass {
        Pass::Mounted => {
            &&& out.instance() is Some
            &&& before.seed() is Some
            &&& exists|notifier: Notifier|
                notifier.marks() == before.flag() && notifier.asks().flag() == requests
                    && #[trigger] before.seed()->0.makes(notifier, out.instance()->0)
            &&& out.instance()->0.told(Hook::Created)
            &&& exists|node: VNode|
                #[trigger] out.instance()->0.shows(node) && out@.source == Some(Box::new(unbound(node@)))
            &&& out.instance()->0.told(Hook::Mounted)
        },
        Pass::Updated => {
            &&& set_to(out.flag(), false)
            &&& out.instance() == before.instance()
            &&& out.instance() is Some
            &&& exists|node: VNode|
                #[trigger] out.instance()->0.shows(node) && out@.source == Some(Box::new(unbound(node@)))
            &&& out.instance()->0.told(Hook::Updated)
        },
        _ => out.instance() == before.instance(),
    }
}

/// What rendering `before` without a target did behind what it left, `out`:
/// an instance was made by the component's own `create`, from the props it
/// kept and a notifier that raises the component's flag; it was told that it
/// was created and asked what it shows.
pub open spec fn is_shown_without_target(out: VComponent, before: VComponent) -> bool {
    before.seed() is Some && exists|notifier: Notifier, living: Instance, node: VNode|
        notifier.marks() == before.flag() && #[trigger] before.seed()->0.makes(notifier, living) && living.told(
            Hook::Created,
        ) && #[trigger] living.shows(node) && out@.source == Some(Box::new(node@))
}

impl VComponent {
    /// A component has its instance exactly if it has rendered, and then
    /// what it rendered came out of what its instance returned; one without
    /// instance has the props to make it from, unless they went into
    /// rendering without a target; and what a component has rendered is
    /// attached.
    #[verifier::type_invariant]
    spec fn well_formed(self) -> bool {
        &&& self.rendered is Some <==> self.live is Some
        &&& self.rendered is Some ==> self.source@ is Some
        &&& self.live is None && self.served is None ==> self.seed is Some
        &&& self.served is Some ==> self.seed is None
        &&& self.rendered matches Some(rendered) ==> (*rendered)@.is_attached()
    }

    /// A component that has rendered has its instance, and what it rendered
    /// is attached: a component that went through a pass is attached.
    pub fn attached(&self)
        ensures
            self@.rendered is Some || self@.pass == Pass::Skipped ==> Tree::Component(self@).is_attached(),
    {
        proof {
            use_type_invariant(self);
        }
    }

    /// Whether the component, if it has rendered, has done so in its first
    /// pass, and every component below it likewise.
    pub fn is_first_pass(&self) -> (first: bool)
        ensures
            first == crate::document::is_first_pass(Tree::Component(self@)),
        decreases crate::model::size(Tree::Component(self@)), 0nat,
    {
        proof {
            use_type_invariant(self);
        }
        match &self.rendered {
            Some(rendered) => match self.pass {
                Pass::Mounted => rendered.is_first_pass(),
                _ => false,
            },
            None => match self.pass {
                Pass::Mounted => false,
                Pass::Updated => false,
                Pass::Propagated => false,
                _ => true,
            },
        }
    }

    /// What the component rendered is well formed: no name twice among the
    /// attributes of an element, no key twice in a list.
    pub fn well_formed_throughout(&self)
        ensures
            crate::laws::is_well_formed(Tree::Component(self@)),
        decreases crate::model::size(Tree::Component(self@)), 0nat,
    {
        match &self.rendered {
            Some(rendered) => rendered.well_formed_throughout(),
            None => {},
        }
    }

    /// The flag that marks the component as changed: the one cell that the
    /// component shares with the notifier of its instance.
    pub closed spec fn flag(&self) -> Rc<Cell<bool>> {
        self.state_changed
    }

    /// The flag of the component was made lowered.
    pub closed spec fn starts_clean(&self) -> bool {
        made_with(self.state_changed, false)
    }

    /// The instance of the component, once made.
    pub closed spec fn instance(&self) -> Option<Instance> {
        match self.live {
            Some(live) => Some(live.instance),
            None => None,
        }
    }

    /// The props that the component keeps to make its instance from.
    pub closed spec fn seed(&self) -> Option<SeedBox> {
        self.seed
    }

    /// The component as it goes into a pass in the place of `new`, a
    /// component of its type: itself, but that it keeps the props of `new`
    /// where it has no instance yet and was not rendered without a target.
    pub closed spec fn with_props_of(self, new: VComponent) -> VComponent {
        VComponent {
            seed: if new.seed is Some && self.live is None && self.served is None {
                new.seed
            } else {
                self.seed
            },
            ..self
        }
    }

    /// What the patch of `new` against `previous` that left this component
    /// did behind the record: a previous component of the same type was
    /// handed the props of `new` and went through the pass in its place;
    /// one of another type was torn down, and `new` went through the pass.
    pub closed spec fn is_patched(
        self,
        new: VComponent,
        previous: Option<VComponent>,
        requests: Rc<Cell<bool>>,
        depth: nat,
    ) -> bool
        decreases self, 2nat,
    {
        &&& self.is_passed(lives_on(new, previous), requests, depth)
        &&& match previous {
            Some(prior) => if prior@.kind == new@.kind {
                is_handed_props(prior, new)
            } else {
                prior.is_torn_down()
            },
            None => true,
        }
    }

    /// What the teardown of the component did behind the record: if it was
    /// mounted, the instance of every mounted component in what it rendered
    /// was told that it is destroyed, and then its own.
    pub closed spec fn is_torn_down(self) -> bool
        decreases self, 0nat,
    {
        match (self.rendered, self.live) {
            (Some(rendered), Some(live)) => crate::vnode::is_torn_down(*rendered) && live.instance.told(
                Hook::Destroyed,
            ),
            _ => true,
        }
    }

    /// A component that is not mounted has nothing to tear down.
    pub proof fn unmounted_is_torn_down(self)
        requires
            self@.rendered is None,
        ensures
            self.is_torn_down(),
    {
    }

    /// What a pass over the component `before` that left this one did
    /// behind the record: the flag was looked at, the component came out of
    /// the pass as one that held what the flag held, its instance was told
    /// what happened to it, and where the component was passed through the
    /// same holds of what it rendered.
    pub closed spec fn is_passed(self, before: VComponent, requests: Rc<Cell<bool>>, depth: nat) -> bool
        decreases self, 1nat,
    {
        exists|dirty: bool| #[trigger]
            read_as(before.flag(), dirty) && self.is_passed_as(before, dirty, requests, depth)
    }

    /// What a pass over the component `before` that left this one did
    /// behind the record, where its flag held `dirty`.
    pub closed spec fn is_passed_as(
        self,
        before: VComponent,
        dirty: bool,
        requests: Rc<Cell<bool>>,
        depth: nat,
    ) -> bool
        decreases self, 0nat,
    {
        &&& component_is_pass_of(self@, before@, dirty, depth)
        &&& is_told(self, before, requests)
        &&& self@.pass == Pass::Propagated ==> match (self.rendered, before.rendered) {
            (Some(rendered), Some(old)) => crate::vnode::is_passed(*rendered, *old, requests, depth),
            _ => true,
        }
        &&& self@.pass == Pass::Mounted ==> match self.rendered {
            Some(rendered) => exists|fresh: VNode|
                #[trigger] is_source_of(fresh, self@) && crate::vnode::is_patched(
                    *rendered,
                    fresh,
                    None,
                    requests,
                    (depth - 1) as nat,
                ),
            None => true,
        }
        &&& self@.pass == Pass::Updated ==> match (self.rendered, before.rendered) {
            (Some(rendered), Some(old)) => exists|fresh: VNode|
                #[trigger] is_source_of(fresh, self@) && crate::vnode::is_patched(
                    *rendered,
                    fresh,
                    Some(*old),
                    requests,
                    (depth - 1) as nat,
                ),
            _ => true,
        }
    }

    /// The component's type is `T`.
    pub closed spec fn is_of<T: Component + 'static>(&self) -> bool {
        is_kind_of::<T>(self.type_id)
    }

    /// The component has no instance yet and keeps `props` to make one of
    /// type `T` from.
    pub closed spec fn awaits<T: Component + 'static>(&self, props: T::Props) -> bool {
        self.seed matches Some(held) && held.forgets(SeedOf::<T>::of(props))
    }

    /// A component of type `T` with `props`, not yet created.
    pub fn new<T: Component + 'static>(props: T::Props) -> (component: VComponent)
        ensures
            component.is_of::<T>(),
            component.awaits::<T>(props),
            component.starts_clean(),
            component.instance() is None,
            component@.instance is None,
            component@.source is None,
            component@.rendered is None,
            component@.pass == Pass::Pending,
            component@.served is None,
    {
        let (kind, seed) = seed_of::<T>(props);
        let component = VComponent {
            type_id: kind,
            seed: Some(seed),
            live: None,
            source: Ghost(None),
            rendered: None,
            state_changed: flag_new(false),
            pass: Pass::Pending,
            served: None,
        };
        component
    }

    /// What the latest pass did with the component.
    pub fn pass(&self) -> (pass: Pass)
        ensures
            pass == self@.pass,
    {
        self.pass
    }

    /// The handle of the instance, once created.
    pub fn instance_id(&self) -> (id: Option<Handle>)
        ensures
            id == self@.instance,
    {
        match &self.live {
            Some(live) => Some(live.id),
            None => None,
        }
    }

    /// What the component rendered last, as it stands in the target.
    pub fn rendered(&self) -> (rendered: Option<&VNode>)
        ensures
            match rendered {
                Some(node) => self@.rendered == Some(Box::new(node@)),
                None => self@.rendered is None,
            },
    {
        match &self.rendered {
            Some(rendered) => Some(&**rendered),
            None => None,
        }
    }

    /// Appends the markup of what the component rendered last to `out`.
    pub fn write_html(&self, out: &mut String)
        ensures
            final(out)@ == old(out)@ + Tree::Component(self@).html(),
        decreases crate::model::size(Tree::Component(self@)), 0nat,
    {
        match &self.rendered {
            Some(rendered) => rendered.write_html(out),
            None => match &self.served {
                Some(served) => served.write_html(out),
                None => {
                    assert(out@ =~= old(out)@ + Tree::Component(self@).html());
                },
            },
        }
    }

    /// Whether two components are of one type and rendered the same.
    pub fn same_as(&self, other: &VComponent) -> (same: bool)
        ensures
            same == crate::model::same(Tree::Component(self@), Tree::Component(other@)),
        decreases crate::model::size(Tree::Component(self@)), 0nat,
    {
        same_type(&self.type_id, &other.type_id) && (match (&self.rendered, &other.rendered) {
            (Some(mine), Some(theirs)) => mine.same_as(theirs),
            (None, None) => true,
            _ => false,
        }) && (match (&self.served, &other.served) {
            (Some(mine), Some(theirs)) => mine.same_as(theirs),
            (None, None) => true,
            _ => false,
        })
    }

    /// The target's node that stands first for what the component rendered.
    pub fn dom_node(&self) -> (node: Option<Handle>)
        ensures
            node == Tree::Component(self@).dom_node(),
        decreases crate::model::size(Tree::Component(self@)), 0nat,
    {
        match &self.rendered {
            Some(rendered) => rendered.dom_node(),
            None => None,
        }
    }

    /// Moves what the component rendered to the end of `parent`.
    pub fn move_to_last(&self, target: &mut Target, parent: Handle)
        ensures
            final(target)@ == old(target)@ + Tree::Component(self@).move_to_last_effects(parent),
            final(target).depth() == old(target).depth(),
            final(target).request_flag() == old(target).request_flag(),
            crate::target::numbered(old(target)@) ==> crate::target::numbered(final(target)@),
        decreases crate::model::size(Tree::Component(self@)), 0nat,
    {
        proof {
            use_type_invariant(self);
        }
        match &self.rendered {
            Some(rendered) => rendered.move_to_last(target, parent),
            None => {
                assert(target@ =~= old(target)@ + Tree::Component(self@).move_to_last_effects(parent));
            },
        }
    }

    /// Moves what the component rendered before `next` under `parent`.
    pub fn move_before(&self, target: &mut Target, parent: Handle, next: Handle)
        ensures
            final(target)@ == old(target)@ + Tree::Component(self@).move_before_effects(parent, next),
            final(target).depth() == old(target).depth(),
            final(target).request_flag() == old(target).request_flag(),
            crate::target::numbered(old(target)@) ==> crate::target::numbered(final(target)@),
        decreases crate::model::size(Tree::Component(self@)), 0nat,
    {
        proof {
            use_type_invariant(self);
        }
        match &self.rendered {
            Some(rendered) => rendered.move_before(target, parent, next),
            None => {
                assert(target@ =~= old(target)@ + Tree::Component(self@).move_before_effects(parent, next));
            },
        }
    }

    /// Whether the two components are of one type: whether a pass lets the
    /// other live on in the place of this one.
    pub fn is_same_type(&self, other: &VComponent) -> (same: bool)
        ensures
            same == (self@.kind == other@.kind),
    {
        same_type(&self.type_id, &other.type_id)
    }

    /// Whether the component is mounted: it has its instance, and what the
    /// instance rendered stands in the target. A component has both or
    /// neither.
    pub fn is_mounted(&self) -> (mounted: bool)
        ensures
            mounted == (self@.instance is Some && self@.rendered is Some),
            mounted == (self@.instance is Some),
            mounted == (self@.rendered is Some),
    {
        proof {
            use_type_invariant(self);
        }
        self.live.is_some()
    }

    /// Takes what the component rendered out of `parent` and then destroys
    /// the instance. Only a mounted component can be removed.
    pub fn remove(self, target: &mut Target, parent: Handle)
        requires
            self@.instance is Some,
            self@.rendered is Some,
        ensures
            self.instance() is Some,
            self.instance()->0.told(Hook::Destroyed),
            self.is_torn_down(),
            final(target)@ == old(target)@ + Tree::Component(self@).remove_effects(parent),
            final(target).depth() == old(target).depth(),
            final(target).request_flag() == old(target).request_flag(),
            crate::target::numbered(old(target)@) ==> crate::target::numbered(final(target)@),
        decreases crate::model::size(Tree::Component(self@)), 0nat,
    {
        proof {
            use_type_invariant(&self);
        }
        let ghost model = self@;
        let VComponent { rendered, live, .. } = self;
        let node: VNode = match rendered {
            Some(rendered) => *rendered,
            None => vstd::pervasive::unreached(),
        };
        let live = match live {
            Some(live) => live,
            None => vstd::pervasive::unreached(),
        };
        node.remove(target, parent);
        live.instance.tell(Hook::Destroyed);
        target.lifecycle(live.id, Hook::Destroyed);
        assert(target@ =~= old(target)@ + Tree::Component(model).remove_effects(parent));
    }

    /// Brings the target up to date with this component. A previous
    /// component of the same type lives on: it is handed the props of this one
    /// and rendered in its place. One of another type is taken out and
    /// destroyed, and this one rendered for the first time. The previous
    /// component went through a pass: one that a pass left out has nothing
    /// in the target to take out.
    pub fn patch(self, target: &mut Target, parent: Handle, next: Option<Handle>, previous: Option<VComponent>) -> (out:
        VComponent)
        requires
            previous matches Some(prior) ==> Tree::Component(prior@).is_attached(),
        ensures
            component_is_patch_of(out@, self@, previous.deep_view(), old(target).depth()),
            exists|dirty: bool| #[trigger]
                read_as(lives_on(self, previous).flag(), dirty) && component_is_pass_of(
                    out@,
                    lives_on(self, previous)@,
                    dirty,
                    old(target).depth(),
                ),
            is_told(out, lives_on(self, previous), old(target).request_flag()),
            out.is_patched(self, previous, old(target).request_flag(), old(target).depth()),
            match previous {
                Some(prior) => if prior@.kind == self@.kind {
                    is_handed_props(prior, self)
                } else {
                    prior.instance() is Some ==> prior.instance()->0.told(Hook::Destroyed)
                },
                None => true,
            },
            final(target)@ == old(target)@ + component_patch_effects(
                out@,
                self@,
                previous.deep_view(),
                parent,
                next,
            ),
            final(target).depth() == old(target).depth(),
            final(target).request_flag() == old(target).request_flag(),
            crate::target::numbered(old(target)@) ==> crate::target::numbered(final(target)@),
            Tree::Component(out@).is_attached(),
        decreases
                old(target).depth(),
                size(Tree::Component(self@)) + option_size(
                    match previous {
                        Some(prior) => Some(Tree::Component(prior@)),
                        None => None,
                    },
                ),
                2nat,
    {
        match previous {
            Some(prior) => {
                if self.is_same_type(&prior) {
                    let survivor = prior.take_props(self);
                    survivor.dom_render(target, parent, next)
                } else {
                    proof {
                        use_type_invariant(&prior);
                    }
                    let ghost old_model = prior@;
                    if prior.is_mounted() {
                        prior.remove(target, parent);
                    } else {
                        assert(target@ =~= old(target)@ + Tree::Component(old_model).remove_effects(parent));
                    }
                    let out = self.dom_render(target, parent, next);
                    assert(target@ =~= old(target)@ + component_patch_effects(
                        out@,
                        self@,
                        Some(old_model),
                        parent,
                        next,
                    ));
                    out
                }
            },
            None => self.dom_render(target, parent, next),
        }
    }

    /// Hands this component the props of `new`, a component of the same
    /// type that will not be used: an instance takes them over if they differ
    /// from its own, and a component without instance keeps them for its
    /// creation.
    fn take_props(self, new: VComponent) -> (out: VComponent)
        ensures
            out == self.with_props_of(new),
            out@ == self@,
            is_handed_props(self, new),
    {
        proof {
            use_type_invariant(&self);
            use_type_invariant(&new);
        }
        let VComponent { seed: props, .. } = new;
        match props {
            Some(props) => {
                let VComponent { type_id, seed, live, source, rendered, state_changed, pass, served } = self;
                match live {
                    Some(live) => {
                        let ghost held = props;
                        let given = props.into_props();
                        let ghost offered = given;
                        let updated = live.instance.set_props(given);
                        assert(held.gives(offered) && live.instance.handed(offered, updated));
                        assert(new.seed()->0.gives(offered) && self.instance()->0.handed(offered, updated));
                        VComponent { type_id, seed, live: Some(live), source, rendered, state_changed, pass, served }
                    },
                    None => match served {
                        Some(served) => VComponent {
                            type_id,
                            seed,
                            live: None,
                            source,
                            rendered,
                            state_changed,
                            pass,
                            served: Some(served),
                        },
                        None => VComponent {
                            type_id,
                            seed: Some(props),
                            live: None,
                            source,
                            rendered,
                            state_changed,
                            pass,
                            served: None,
                        },
                    },
                }
            },
            None => self,
        }
    }

    /// One pass over the component: it is rendered if it never was or if its
    /// state has changed since it last was, and passed through otherwise.
    pub fn dom_render(self, target: &mut Target, parent: Handle, next: Option<Handle>) -> (out: VComponent)
        ensures
            component_is_render_of(out@, self@, old(target).depth()),
            exists|dirty: bool| #[trigger]
                read_as(self.flag(), dirty) && component_is_pass_of(out@, self@, dirty, old(target).depth()),
            is_told(out, self, old(target).request_flag()),
            out.is_passed(self, old(target).request_flag(), old(target).depth()),
            final(target)@ == old(target)@ + component_render_effects(out@, self@, parent, next),
            final(target).depth() == old(target).depth(),
            final(target).request_flag() == old(target).request_flag(),
            crate::target::numbered(old(target)@) ==> crate::target::numbered(final(target)@),
            Tree::Component(out@).is_attached(),
        decreases old(target).depth(), size(Tree::Component(self@)), 1nat,
    {
        let dirty = flag_read(&self.state_changed);
        self.render_pass(dirty, target, parent, next)
    }

    /// One pass over the component, given whether its state has changed
    /// (`dirty`). A component that never rendered is rendered against
    /// nothing; its instance is created first, and `mounted` is fired last.
    /// One that has rendered and is dirty has its flag lowered and is
    /// rendered against what it rendered before, and `updated` is fired. One
    /// that is not dirty is left alone and the pass goes on below it. Where
    /// the target allows no deeper nesting, nothing is rendered. What an
    /// instance returns is patched as it was described: an event binding in
    /// it that was attached before counts as never attached.
    pub fn render_pass(
        self,
        dirty: bool,
        target: &mut Target,
        parent: Handle,
        next: Option<Handle>,
    ) -> (out: VComponent)
        ensures
            component_is_pass_of(out@, self@, dirty, old(target).depth()),
            is_told(out, self, old(target).request_flag()),
            out.is_passed_as(self, dirty, old(target).request_flag(), old(target).depth()),
            final(target)@ == old(target)@ + component_render_effects(out@, self@, parent, next),
            final(target).depth() == old(target).depth(),
            final(target).request_flag() == old(target).request_flag(),
            crate::target::numbered(old(target)@) ==> crate::target::numbered(final(target)@),
            Tree::Component(out@).is_attached(),
        decreases old(target).depth(), size(Tree::Component(self@)), 0nat,
    {
        proof {
            use_type_invariant(&self);
        }
        let ghost before = self@;
        let VComponent { type_id, seed, live, source, rendered, state_changed, pass, served } = self;
        match rendered {
            None => {
                if target.remaining_depth() == 0 || seed.is_none() {
                    let out = VComponent {
                        type_id,
                        seed,
                        live,
                        source,
                        rendered: None,
                        state_changed,
                        pass: Pass::Skipped,
                        served,
                    };
                    assert(target@ =~= old(target)@ + component_render_effects(out@, before, parent, next));
                    assert(out.is_passed_as(self, dirty, old(target).request_flag(), old(target).depth()));
                    return out;
                }
                let props = match seed {
                    Some(props) => props,
                    None => vstd::pervasive::unreached(),
                };
                let ghost held = props;
                let notifier = Notifier::new(&state_changed, target.sender());
                let ghost handed = notifier;
                let instance = props.create(notifier);
                instance.tell(Hook::Created);
                let id = target.created();
                let live = Live { instance, id };
                let ghost started = target@;
                let node = live.instance.render();
                let ghost shown = node;
                let node = described(node);
                let ghost fresh = node@;
                let ghost patched = node;
                target.enter();
                let node = node.patch(target, parent, next, None);
                let ghost built = node;
                target.leave();
                live.instance.tell(Hook::Mounted);
                target.lifecycle(live.id, Hook::Mounted);
                let out = VComponent {
                    type_id,
                    seed: None,
                    live: Some(live),
                    source: Ghost(Some(Box::new(fresh))),
                    rendered: Some(Box::new(node)),
                    state_changed,
                    pass: Pass::Mounted,
                    served,
                };
                assert(target@ =~= old(target)@ + component_render_effects(out@, before, parent, next));
                assert(out.instance() == Some(live.instance) && self.seed() == Some(held));
                assert(handed.marks() == self.flag() && handed.asks().flag() == old(target).request_flag()
                    && self.seed()->0.makes(handed, out.instance()->0));
                assert(out.instance()->0.shows(shown) && out@.source == Some(Box::new(unbound(shown@))));
                assert(out.instance()->0.told(Hook::Created) && out.instance()->0.told(Hook::Mounted));
                assert(is_told(out, self, old(target).request_flag()));
                assert(out.rendered == Some(Box::new(built)));
                assert(is_source_of(patched, out@) && crate::vnode::is_patched(
                    built,
                    patched,
                    None,
                    old(target).request_flag(),
                    (old(target).depth() - 1) as nat,
                ));
                assert(out.is_passed_as(self, dirty, old(target).request_flag(), old(target).depth()));
                out
            },
            Some(old_rendered) => {
                let live = match live {
                    Some(live) => live,
                    None => vstd::pervasive::unreached(),
                };
                let old_node: VNode = *old_rendered;
                if !dirty {
                    let node = old_node.dom_render(target, parent, next);
                    let out = VComponent {
                        type_id,
                        seed,
                        live: Some(live),
                        source,
                        rendered: Some(Box::new(node)),
                        state_changed,
                        pass: Pass::Propagated,
                        served,
                    };
                    assert(target@ =~= old(target)@ + component_render_effects(out@, before, parent, next));
                    assert(out.is_passed_as(self, dirty, old(target).request_flag(), old(target).depth()));
                    out
                } else if target.remaining_depth() == 0 {
                    let out = VComponent {
                        type_id,
                        seed,
                        live: Some(live),
                        source,
                        rendered: Some(Box::new(old_node)),
                        state_changed,
                        pass: Pass::Skipped,
                        served,
                    };
                    assert(target@ =~= old(target)@ + component_render_effects(out@, before, parent, next));
                    assert(out.is_passed_as(self, dirty, old(target).request_flag(), old(target).depth()));
                    out
                } else {
                    flag_write(&state_changed, false);
                    let node = live.instance.render();
                    let ghost shown = node;
                    let node = described(node);
                    let ghost fresh = node@;
                    let ghost patched = node;
                    target.enter();
                    let node = node.patch(target, parent, next, Some(old_node));
                    let ghost built = node;
                    target.leave();
                    live.instance.tell(Hook::Updated);
                    target.lifecycle(live.id, Hook::Updated);
                    let out = VComponent {
                        type_id,
                        seed,
                        live: Some(live),
                        source: Ghost(Some(Box::new(fresh))),
                        rendered: Some(Box::new(node)),
                        state_changed,
                        pass: Pass::Updated,
                        served,
                    };
                    assert(target@ =~= old(target)@ + component_render_effects(out@, before, parent, next));
                    assert(out.instance() == Some(live.instance) && out.instance() == self.instance());
                    assert(out.instance()->0.shows(shown) && out@.source == Some(Box::new(unbound(shown@))));
                    assert(set_to(out.flag(), false) && out.instance()->0.told(Hook::Updated));
                    assert(is_told(out, self, old(target).request_flag()));
                    assert(out.rendered == Some(Box::new(built)) && self.rendered == Some(Box::new(old_node)));
                    assert(is_source_of(patched, out@) && crate::vnode::is_patched(
                        built,
                        patched,
                        Some(old_node),
                        old(target).request_flag(),
                        (old(target).depth() - 1) as nat,
                    ));
                    assert(out.is_passed_as(self, dirty, old(target).request_flag(), old(target).depth()));
                    out
                }
            },
        }
    }

    /// Whether the component is as it was made: it has no instance and has
    /// rendered nothing, with a target or without.
    pub fn is_unrendered(&self) -> (unrendered: bool)
        ensures
            unrendered == (self@.instance is None && self@.rendered is None && self@.served is None),
    {
        self.live.is_none() && self.rendered.is_none() && self.served.is_none()
    }

    /// Renders the component without a target, if `depth` allows it: the
    /// instance is made, its `created` hook fired, and what it renders is
    /// rendered in turn and kept; a tree in which a component has rendered
    /// before is kept as the instance returned it. Only a component that is
    /// as it was made can be rendered so: none is made an instance twice.
    pub fn server_rendered(self, depth: usize) -> (out: VComponent)
        requires
            self@.instance is None,
            self@.rendered is None,
            self@.served is None,
        ensures
            component_is_served(out@, self@, depth as nat),
            out.flag() == self.flag(),
            depth > 0 ==> is_shown_without_target(out, self),
        decreases depth, size(Tree::Component(self@)), 1nat,
    {
        proof {
            use_type_invariant(&self);
        }
        if depth > 0 {
            let VComponent { type_id, seed, state_changed, pass, .. } = self;
            let props = match seed {
                Some(props) => props,
                None => vstd::pervasive::unreached(),
            };
            let ghost held = props;
            let notifier = Notifier::new(&state_changed, RenderRequest::new().sender());
            let ghost handed = notifier;
            let instance = props.create(notifier);
            instance.tell(Hook::Created);
            let node = instance.render();
            let ghost shown = node;
            let ghost fresh = node@;
            let node = if node.is_unrendered_throughout() {
                node.server_rendered(depth - 1)
            } else {
                node
            };
            let out = VComponent {
                type_id,
                seed: None,
                live: None,
                source: Ghost(Some(Box::new(fresh))),
                rendered: None,
                state_changed,
                pass,
                served: Some(Box::new(node)),
            };
            assert(handed.marks() == self.flag() && held.makes(handed, instance) && instance.told(Hook::Created)
                && instance.shows(shown) && out@.source == Some(Box::new(shown@)));
            out
        } else {
            self
        }
    }

    /// A component that stands in for another while that is worked on: it
    /// has nothing to make an instance from and shows an empty text.
    fn placeholder() -> (component: VComponent) {
        VComponent {
            type_id: type_id_of::<()>(),
            seed: None,
            live: None,
            source: Ghost(None),
            rendered: None,
            state_changed: flag_new(false),
            pass: Pass::Pending,
            served: Some(Box::new(VNode::Text(VText::new(String::new())))),
        }
    }

    /// The markup of what the component rendered last.
    pub fn to_string(&self) -> (html: String)
        ensures
            html@ == Tree::Component(self@).html(),
    {
        let mut html = String::new();
        self.write_html(&mut html);
        assert(html@ =~= Tree::Component(self@).html());
        html
    }
}

impl ServerRender for VComponent {
    open spec fn servable(&self) -> bool {
        self@.instance is None && self@.rendered is None && self@.served is None
    }

    open spec fn served(out: Self, before: Self) -> bool {
        component_is_served(out@, before@, DEFAULT_DEPTH as nat)
    }

    /// Renders the component without a target.
    fn server_render(&mut self) {
        let mut component = VComponent::placeholder();
        core::mem::swap(self, &mut component);
        let mut component = component.server_rendered(DEFAULT_DEPTH);
        core::mem::swap(self, &mut component);
    }
}

impl RenderToString for VComponent {
    open spec fn markup(&self) -> Seq<char> {
        Tree::Component(self@).html()
    }

    /// Renders the component without a target and gives the markup of what
    /// came out.
    fn render_to_string(&mut self) -> (html: String) {
        self.server_render();
        self.to_string()
    }
}

} // verus!
