//! A component with its type forgotten.
//!
//! A tree holds components of many types. What is particular to one type is
//! reached through two interfaces that each type of component fills in the
//! same way: a [`Seed`] is the props from which an instance can be made, and
//! a [`Slot`] is an instance that was made. What each type of component does
//! behind these interfaces is verified code, and each interface says in its
//! own terms which of the component's own functions was called: that is
//! what the contracts of a pass speak of. The trait objects themselves
//! stand behind [`SeedBox`] and [`Instance`], which the verifier does not
//! look into: a tree cannot be shown to hold what in turn hands out trees.
//! Props on their way from one component to another of the same type travel
//! as [`Props`], which the verifier does not look into either.

use crate::scheduler::Notifier;
use crate::target::Hook;
use crate::traits::Component;
use crate::traits::refresh;
use crate::vnode::VNode;
use std::any::Any;
use std::any::TypeId;
use vstd::prelude::*;

verus! {

/// The instance of a component, whatever its type. Each method says in the
/// terms of the interface what the component's own code was asked to do.
pub trait Slot {
    /// This is what stands behind `instance`.
    spec fn stands_behind(&self, instance: Instance) -> bool;

    /// The component's own hook `hook` has run on the instance.
    spec fn told(&self, hook: Hook) -> bool;

    /// The component's own `render` has returned `node` for the instance.
    spec fn shows(&self, node: VNode) -> bool;

    /// `props` were offered to the instance, and its own `update` took them
    /// (`updated`) exactly if they were props of its type and its own
    /// `eq_props` denied that it has them.
    spec fn handed(&self, props: Props, updated: bool) -> bool;

    /// The `created` hook of the instance.
    fn created(&self)
        ensures
            self.told(Hook::Created),
    ;

    /// The `mounted` hook of the instance.
    fn mounted(&self)
        ensures
            self.told(Hook::Mounted),
    ;

    /// The `updated` hook of the instance.
    fn updated(&self)
        ensures
            self.told(Hook::Updated),
    ;

    /// The `destroyed` hook of the instance.
    fn destroyed(&self)
        ensures
            self.told(Hook::Destroyed),
    ;

    /// What the instance shows.
    fn render(&self) -> (node: VNode)
        ensures
            self.shows(node),
    ;

    /// Hands the instance props that were made for a component of its type,
    /// and says whether the instance took them over.
    fn set_props(&self, props: Props) -> (updated: bool)
        ensures
            self.handed(props, updated),
    ;
}

/// The instance of a component of type `T`.
pub struct Typed<T: Component> {
    instance: T,
}

impl<T: Component> Typed<T> {
    /// The instance itself.
    pub closed spec fn instance(&self) -> T {
        self.instance
    }

    /// The typed form of `instance`.
    pub closed spec fn of(instance: T) -> Typed<T> {
        Typed { instance }
    }
}

impl<T: Component + 'static> Slot for Typed<T> {
    open spec fn stands_behind(&self, instance: Instance) -> bool {
        instance.forgets(*self)
    }

    open spec fn told(&self, hook: Hook) -> bool {
        match hook {
            Hook::Created => call_ensures(<T as crate::traits::Lifecycle>::created, (&self.instance(),), ()),
            Hook::Mounted => call_ensures(<T as crate::traits::Lifecycle>::mounted, (&self.instance(),), ()),
            Hook::Updated => call_ensures(<T as crate::traits::Lifecycle>::updated, (&self.instance(),), ()),
            Hook::Destroyed => call_ensures(<T as crate::traits::Lifecycle>::destroyed, (&self.instance(),), ()),
        }
    }

    open spec fn shows(&self, node: VNode) -> bool {
        call_ensures(<T as crate::traits::Render>::render, (&self.instance(),), node)
    }

    open spec fn handed(&self, props: Props, updated: bool) -> bool {
        if updated {
            exists|given: T::Props| #[trigger]
                props.restores(Some(given)) && call_ensures(T::eq_props, (&self.instance(), &given), false)
                    && call_ensures(T::update, (&self.instance(), given), ())
        } else {
            props.restores(None::<T::Props>) || exists|given: T::Props| #[trigger]
                props.restores(Some(given)) && call_ensures(T::eq_props, (&self.instance(), &given), true)
        }
    }

    fn created(&self) {
        self.instance.created()
    }

    fn mounted(&self) {
        self.instance.mounted()
    }

    fn updated(&self) {
        self.instance.updated()
    }

    fn destroyed(&self) {
        self.instance.destroyed()
    }

    fn render(&self) -> (node: VNode) {
        self.instance.render()
    }

    /// Hands the props on if they are props of `T` and differ from those
    /// that the instance has.
    fn set_props(&self, props: Props) -> (updated: bool) {
        match restore::<T::Props>(props) {
            Some(given) => {
                let ghost kept = given;
                let updated = refresh(&self.instance, given);
                assert(props.restores(Some(kept)));
                updated
            },
            None => false,
        }
    }
}

/// The props of a component that has no instance yet, whatever its type.
pub trait Seed {
    /// This is what `held` holds.
    spec fn held_by(&self, held: SeedBox) -> bool;

    /// The component's own `create` has made what stands behind `instance`
    /// from the props and `notifier`.
    spec fn makes(&self, notifier: Notifier, instance: Instance) -> bool;

    /// `props` are the props, with their type forgotten.
    spec fn gives(&self, props: Props) -> bool;

    /// Makes the instance.
    fn create(self: Box<Self>, notifier: Notifier) -> (instance: Instance)
        ensures
            self.makes(notifier, instance),
    ;

    /// Gives the props up, for an instance that lives already.
    fn into_props(self: Box<Self>) -> (props: Props)
        ensures
            self.gives(props),
    ;
}

/// The props of a component of type `T`.
pub struct SeedOf<T: Component> {
    props: T::Props,
}

impl<T: Component> SeedOf<T> {
    /// The props themselves.
    pub closed spec fn props(&self) -> T::Props {
        self.props
    }

    /// The seed that holds `props`.
    pub closed spec fn of(props: T::Props) -> SeedOf<T> {
        SeedOf { props }
    }
}

impl<T: Component + 'static> Seed for SeedOf<T> {
    open spec fn held_by(&self, held: SeedBox) -> bool {
        held.forgets(*self)
    }

    open spec fn makes(&self, notifier: Notifier, instance: Instance) -> bool {
        exists|created: T|
            call_ensures(T::create, (self.props(), notifier), created) && #[trigger] instance.forgets(
                Typed::of(created),
            )
    }

    open spec fn gives(&self, props: Props) -> bool {
        props.forgets(self.props())
    }

    /// The instance that the component's own `create` makes from the props
    /// and the notifier, with its type forgotten.
    fn create(self: Box<Self>, notifier: Notifier) -> (instance: Instance) {
        let seed: SeedOf<T> = *self;
        let ghost props = seed.props;
        let created = T::create(seed.props, notifier);
        let ghost made = created;
        let instance = hold(Typed { instance: created });
        assert(call_ensures(T::create, (props, notifier), made));
        assert(instance.forgets(Typed::of(made)));
        instance
    }

    /// The props of the seed, with their type forgotten.
    fn into_props(self: Box<Self>) -> (props: Props) {
        let seed: SeedOf<T> = *self;
        erase(seed.props)
    }
}

/// `id` is the kind of the components of type `T`: the identity of the type
/// of their seeds, and the only identity that type has.
pub closed spec fn is_kind_of<T: Component + 'static>(id: TypeId) -> bool {
    &&& call_ensures(type_id_of::<SeedOf<T>>, (), id)
    &&& forall|other: TypeId| call_ensures(type_id_of::<SeedOf<T>>, (), other) ==> other == id
}

/// A type of component has one kind.
pub proof fn law_a_type_has_one_kind<T: Component + 'static>(a: TypeId, b: TypeId)
    requires
        is_kind_of::<T>(a),
        is_kind_of::<T>(b),
    ensures
        a == b,
{
}

/// The kind of the components of type `T`, and the seed of one with
/// `props`, with its type forgotten. The identity is asked for twice, of
/// the type and of the seed: what the seed says is the only answer there
/// is, so that the answer for the type is it.
pub fn seed_of<T: Component + 'static>(props: T::Props) -> (made: (TypeId, SeedBox))
    ensures
        is_kind_of::<T>(made.0),
        made.1.forgets(SeedOf::<T>::of(props)),
{
    let seed = SeedOf::<T> { props };
    let kind = type_id_of::<SeedOf<T>>();
    let _ = type_id_in(&seed);
    (kind, seed_box(seed))
}

impl SeedBox {
    /// The box holds `seed`, with its type forgotten.
    pub closed spec fn forgets<T: Component + 'static>(self, seed: SeedOf<T>) -> bool {
        call_ensures(seed_box::<T>, (seed,), self)
    }

    /// The component's own `create` has made what stands behind `instance`
    /// from the props held here and `notifier`.
    pub closed spec fn makes(self, notifier: Notifier, instance: Instance) -> bool {
        exists|seed: Box<dyn Seed>| #[trigger] seed.held_by(self) && seed.makes(notifier, instance)
    }

    /// `props` are the props held here, with their type forgotten.
    pub closed spec fn gives(self, props: Props) -> bool {
        exists|seed: Box<dyn Seed>| #[trigger] seed.held_by(self) && seed.gives(props)
    }

    /// Makes the instance from the props held here.
    pub fn create(self, notifier: Notifier) -> (instance: Instance)
        ensures
            self.makes(notifier, instance),
    {
        let seed = seed_unbox(self).seed;
        let ghost held = seed;
        let instance = seed.create(notifier);
        assert(held.held_by(self) && held.makes(notifier, instance));
        instance
    }

    /// Gives up the props held here, for an instance that lives already.
    pub fn into_props(self) -> (props: Props)
        ensures
            self.gives(props),
    {
        let seed = seed_unbox(self).seed;
        let ghost held = seed;
        let props = seed.into_props();
        assert(held.held_by(self) && held.gives(props));
        props
    }
}

impl Instance {
    /// The instance is `typed`, with its type forgotten.
    pub closed spec fn forgets<T: Component + 'static>(self, typed: Typed<T>) -> bool {
        call_ensures(hold::<T>, (typed,), self)
    }

    /// The component's own hook `hook` has run on the instance.
    pub closed spec fn told(self, hook: Hook) -> bool {
        exists|slot: &dyn Slot| #[trigger] slot.stands_behind(self) && slot.told(hook)
    }

    /// The component's own `render` has returned `node` for the instance.
    pub closed spec fn shows(self, node: VNode) -> bool {
        exists|slot: &dyn Slot| #[trigger] slot.stands_behind(self) && slot.shows(node)
    }

    /// `props` were offered to the instance, and its own `update` took them
    /// (`updated`) exactly if they were props of its type and its own
    /// `eq_props` denied that it has them.
    pub closed spec fn handed(self, props: Props, updated: bool) -> bool {
        exists|slot: &dyn Slot| #[trigger] slot.stands_behind(self) && slot.handed(props, updated)
    }

    /// Fires the hook `hook` of the instance.
    pub fn tell(&self, hook: Hook)
        ensures
            self.told(hook),
    {
        let slot = slot_of(self).slot;
        match hook {
            Hook::Created => slot.created(),
            Hook::Mounted => slot.mounted(),
            Hook::Updated => slot.updated(),
            Hook::Destroyed => slot.destroyed(),
        }
        assert(slot.stands_behind(*self) && slot.told(hook));
    }

    /// What the instance shows.
    pub fn render(&self) -> (node: VNode)
        ensures
            self.shows(node),
    {
        let slot = slot_of(self).slot;
        let node = slot.render();
        assert(slot.stands_behind(*self) && slot.shows(node));
        node
    }

    /// Offers the instance props that were made for a component of its
    /// type, and says whether it took them over.
    pub fn set_props(&self, props: Props) -> (updated: bool)
        ensures
            self.handed(props, updated),
    {
        let slot = slot_of(self).slot;
        let updated = slot.set_props(props);
        assert(slot.stands_behind(*self) && slot.handed(props, updated));
        updated
    }
}

impl Props {
    /// These are `props`, with their type forgotten.
    pub closed spec fn forgets<P: 'static>(self, props: P) -> bool {
        call_ensures(erase::<P>, (props,), self)
    }

    /// Taken as props of type `P`, these give `restored`: the props
    /// themselves, or nothing where they are of another type.
    pub closed spec fn restores<P: 'static>(self, restored: Option<P>) -> bool {
        call_ensures(restore::<P>, (self,), restored)
    }
}

/// A seed, as `Box<dyn Seed>`.
#[verifier::external_body]
pub struct SeedBox {
    seed: Box<dyn Seed>,
}

/// `Box::new`, and the coercion of the box to `Box<dyn Seed>`.
#[verifier::external_body]
pub(crate) fn seed_box<T: Component + 'static>(seed: SeedOf<T>) -> (held: SeedBox)
{
    SeedBox { seed: Box::new(seed) }
}

/// What a [`SeedBox`] held, taken out.
pub struct Unboxed {
    pub seed: Box<dyn Seed>,
}

/// Takes the box out from behind [`SeedBox`]; nothing is computed. What
/// comes out is what [`seed_box`] put in.
#[verifier::external_body]
pub(crate) fn seed_unbox(held: SeedBox) -> (unboxed: Unboxed)
    ensures
        unboxed.seed.held_by(held),
{
    Unboxed { seed: held.seed }
}

/// An instance, as `Box<dyn Slot>`.
#[verifier::external_body]
pub struct Instance {
    slot: Box<dyn Slot>,
}

/// Props of some type, as `Box<dyn Any>`.
#[verifier::external_body]
pub struct Props {
    value: Box<dyn Any>,
}

/// `Box::new`, and the coercion of the box to `Box<dyn Slot>`.
#[verifier::external_body]
pub(crate) fn hold<T: Component + 'static>(typed: Typed<T>) -> (instance: Instance)
{
    Instance { slot: Box::new(typed) }
}

/// What stands behind an instance, borrowed.
pub struct Face<'a> {
    pub slot: &'a dyn Slot,
}

/// `Deref::deref` of the box: the slot that [`hold`] put in.
#[verifier::external_body]
pub(crate) fn slot_of(instance: &Instance) -> (face: Face<'_>)
    ensures
        face.slot.stands_behind(*instance),
{
    Face { slot: &*instance.slot }
}

/// `Box::new`, and the coercion of the box to `Box<dyn Any>`.
#[verifier::external_body]
pub(crate) fn erase<P: 'static>(props: P) -> (erased: Props)
{
    Props { value: Box::new(props) }
}

/// `Box::downcast`: what the box holds, if that is of type `P`.
#[verifier::external_body]
pub(crate) fn restore<P: 'static>(props: Props) -> (restored: Option<P>)
{
    match props.value.downcast::<P>() {
        Ok(boxed) => Some(*boxed),
        Err(_) => None,
    }
}

/// `TypeId::of`: the identity of the type `T`.
#[verifier::external_body]
pub(crate) fn type_id_of<T: 'static>() -> (id: TypeId)
{
    TypeId::of::<T>()
}

/// `Any::type_id`: the identity of the type of `value`. It is the one
/// identity that the type has: whatever `TypeId::of` gives for the type is
/// this.
#[verifier::external_body]
pub(crate) fn type_id_in<V: 'static>(value: &V) -> (id: TypeId)
    ensures
        forall|other: TypeId| call_ensures(type_id_of::<V>, (), other) ==> other == id,
{
    <V as Any>::type_id(value)
}

/// `TypeId::eq`: two identities are equal exactly if they are of one type.
#[verifier::external_body]
pub(crate) fn same_type(a: &TypeId, b: &TypeId) -> (same: bool)
    ensures
        same == (*a == *b),
{
    a == b
}

} // verus!
