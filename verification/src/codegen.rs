//! The rules by which the code around a component is generated: what a
//! component struct and an event handler must look like, which parts are
//! generated for a struct, and what the generated items are called.
//!
//! The rules are stated over plain descriptions of the items. Parsing the
//! items and writing the generated tokens is left to the caller.

use heck::ToSnakeCase;
use vstd::prelude::*;
use vstd::string::StringExecFns;

verus! {

/// One argument of a function, as far as the rules look at it.
#[derive(Clone, Copy, Debug, PartialEq, Eq, Structural)]
pub enum Argument {
    /// `&self`
    SelfRef,
    /// `&mut self`
    SelfMut,
    /// `self`
    SelfValue,
    /// A pattern with its type, as in `event: ClickEvent`.
    Typed,
    /// Any other argument.
    Other,
}

/// What the rules look at in a function.
pub struct Signature {
    /// It has no visibility of its own.
    pub private: bool,
    pub is_unsafe: bool,
    /// It names a return type.
    pub returns: bool,
    pub arguments: Vec<Argument>,
}

/// Says of an item that it has no visibility of its own.
pub trait IsPrivate {
    /// The item has no visibility of its own.
    spec fn private(&self) -> bool;

    /// Whether the item has no visibility of its own.
    fn is_private(&self) -> (private: bool)
        ensures
            private == self.private(),
    ;
}

impl IsPrivate for Signature {
    open spec fn private(&self) -> bool {
        self.private
    }

    fn is_private(&self) -> (private: bool) {
        self.private
    }
}

impl IsPrivate for FieldRule {
    open spec fn private(&self) -> bool {
        self.private
    }

    fn is_private(&self) -> (private: bool) {
        self.private
    }
}

/// Why a function cannot be an event method.
#[derive(Clone, Copy, Debug, PartialEq, Eq, Structural)]
pub enum EventError {
    /// Event methods can only be private.
    NotPrivate,
    /// Event methods cannot be unsafe.
    Unsafe,
    /// Event methods have no return type.
    ReturnType,
    /// There is no first argument.
    NoSelf,
    /// There is no second argument.
    NoEvent,
    /// The first argument is `&mut self`.
    MutableSelf,
    /// The first argument is not `&self`.
    NotSelf,
    /// The second argument is no pattern with a type.
    UntypedEvent,
}

/// The first rule for event methods that the function breaks, if it breaks
/// one: the rules are held to it in the order of [`EventError`].
pub open spec fn event_error(signature: Signature) -> Option<EventError> {
    let arguments = signature.arguments@;
    if !signature.private {
        Some(EventError::NotPrivate)
    } else if signature.is_unsafe {
        Some(EventError::Unsafe)
    } else if signature.returns {
        Some(EventError::ReturnType)
    } else if arguments.len() < 1 {
        Some(EventError::NoSelf)
    } else if arguments.len() < 2 {
        Some(EventError::NoEvent)
    } else if arguments[0] == Argument::SelfMut {
        Some(EventError::MutableSelf)
    } else if arguments[0] != Argument::SelfRef {
        Some(EventError::NotSelf)
    } else if arguments[1] != Argument::Typed {
        Some(EventError::UntypedEvent)
    } else {
        None
    }
}

/// Holds a function to the rules for event methods: private, safe, without
/// return type, `&self` first and the typed event second.
pub fn check_event(signature: &Signature) -> (result: Result<(), EventError>)
    ensures
        result == match event_error(*signature) {
            Some(error) => Err::<(), EventError>(error),
            None => Ok(()),
        },
{
    if !signature.is_private() {
        return Err(EventError::NotPrivate);
    }
    if signature.is_unsafe {
        return Err(EventError::Unsafe);
    }
    if signature.returns {
        return Err(EventError::ReturnType);
    }
    if signature.arguments.len() < 1 {
        return Err(EventError::NoSelf);
    }
    if signature.arguments.len() < 2 {
        return Err(EventError::NoEvent);
    }
    match signature.arguments[0] {
        Argument::SelfRef => {},
        Argument::SelfMut => {
            return Err(EventError::MutableSelf);
        },
        _ => {
            return Err(EventError::NotSelf);
        },
    }
    match signature.arguments[1] {
        Argument::Typed => Ok(()),
        _ => Err(EventError::UntypedEvent),
    }
}

/// Why a method cannot be wrapped as an event handler.
#[derive(Clone, Copy, Debug, PartialEq, Eq, Structural)]
pub enum HandlerError {
    /// The method has a return type.
    ReturnType,
    /// There is no first argument.
    NoSelf,
    /// There is no second argument.
    NoEvent,
    /// There are more than two arguments.
    TooManyArguments,
    /// The first argument is neither `&self` nor `&mut self`.
    NotSelf,
    /// The second argument is no pattern with a type.
    UntypedEvent,
}

/// The first rule for handlers that the method breaks, if it breaks one: the
/// rules are held to it in the order of [`HandlerError`].
pub open spec fn handler_error(signature: Signature) -> Option<HandlerError> {
    let arguments = signature.arguments@;
    if signature.returns {
        Some(HandlerError::ReturnType)
    } else if arguments.len() < 1 {
        Some(HandlerError::NoSelf)
    } else if arguments.len() < 2 {
        Some(HandlerError::NoEvent)
    } else if arguments.len() > 2 {
        Some(HandlerError::TooManyArguments)
    } else if arguments[0] != Argument::SelfRef && arguments[0] != Argument::SelfMut {
        Some(HandlerError::NotSelf)
    } else if arguments[1] != Argument::Typed {
        Some(HandlerError::UntypedEvent)
    } else {
        None
    }
}

/// Holds a method to the rules for handlers and says whether its wrapper
/// has to borrow the component mutably: whether the method takes
/// `&mut self`.
pub fn check_handler(signature: &Signature) -> (result: Result<bool, HandlerError>)
    ensures
        result == match handler_error(*signature) {
            Some(error) => Err::<bool, HandlerError>(error),
            None => Ok(signature.arguments@[0] == Argument::SelfMut),
        },
{
    if signature.returns {
        return Err(HandlerError::ReturnType);
    }
    if signature.arguments.len() < 1 {
        return Err(HandlerError::NoSelf);
    }
    if signature.arguments.len() < 2 {
        return Err(HandlerError::NoEvent);
    }
    if signature.arguments.len() > 2 {
        return Err(HandlerError::TooManyArguments);
    }
    let mutable = match signature.arguments[0] {
        Argument::SelfRef => false,
        Argument::SelfMut => true,
        _ => {
            return Err(HandlerError::NotSelf);
        },
    };
    match signature.arguments[1] {
        Argument::Typed => Ok(mutable),
        _ => Err(HandlerError::UntypedEvent),
    }
}

/// The fields of a struct: none, unnamed or named.
#[derive(Clone, Copy, Debug, PartialEq, Eq, Structural)]
pub enum Shape {
    Unit,
    Tuple,
    Named,
}

/// Whether a field is marked as a prop.
#[derive(Clone, Copy, Debug, PartialEq, Eq, Structural)]
pub enum PropMark {
    /// The field has no `prop` attribute.
    Absent,
    /// The first `prop` attribute of the field stands alone.
    Plain,
    /// The first `prop` attribute of the field has arguments.
    WithArguments,
}

/// What the rules look at in a field.
#[derive(Clone, Copy, Debug, PartialEq, Eq, Structural)]
pub struct FieldRule {
    /// The field has no visibility of its own.
    pub private: bool,
    pub prop: PropMark,
}

/// Why a struct cannot be a component.
#[derive(Clone, Copy, Debug, PartialEq, Eq, Structural)]
pub enum ComponentError {
    /// Tuple structs are not allowed.
    TupleStruct,
    /// Only private fields are allowed.
    PublicField,
    /// A `prop` attribute takes no arguments.
    PropArguments,
}

/// How the instance of a component is made.
#[derive(Clone, Copy, Debug, PartialEq, Eq, Structural)]
pub enum CreateKind {
    /// The component has no data: the instance is the unit struct.
    Bare,
    /// Every field starts from its default.
    FromDefaults,
    /// The props fill their fields; every other field starts from its
    /// default.
    FromProps,
}

/// What is generated for a component.
#[derive(Clone, Copy, Debug, PartialEq, Eq, Structural)]
pub struct Plan {
    /// A data struct, with getters, holds the fields.
    pub has_data: bool,
    /// A props struct, with setters, holds the fields marked as props; new
    /// props are taken over and compared field by field.
    pub has_props: bool,
    pub create: CreateKind,
}

/// What breaks a rule in the field, if anything.
pub open spec fn field_error(field: FieldRule) -> Option<ComponentError> {
    if !field.private {
        Some(ComponentError::PublicField)
    } else if field.prop == PropMark::WithArguments {
        Some(ComponentError::PropArguments)
    } else {
        None
    }
}

/// The first rule for components that the struct breaks, if it breaks one.
/// A tuple struct is refused before its fields are looked at; the fields
/// are looked at first to last.
pub open spec fn component_error(shape: Shape, fields: Seq<FieldRule>) -> Option<ComponentError> {
    if shape == Shape::Tuple {
        Some(ComponentError::TupleStruct)
    } else if shape == Shape::Unit {
        None
    } else if exists|i: int| 0 <= i < fields.len() && field_error(#[trigger] fields[i]) is Some {
        let first = choose|i: int|
            0 <= i < fields.len() && field_error(#[trigger] fields[i]) is Some && forall|j: int|
                0 <= j < i ==> field_error(#[trigger] fields[j]) is None;
        field_error(fields[first])
    } else {
        None
    }
}

/// The plan for a struct that breaks no rule: data wherever it has fields,
/// props wherever a field is marked.
pub open spec fn planned(shape: Shape, fields: Seq<FieldRule>) -> Plan {
    let has_data = shape == Shape::Named && fields.len() > 0;
    let has_props = shape == Shape::Named && exists|i: int|
        0 <= i < fields.len() && (#[trigger] fields[i]).prop == PropMark::Plain;
    Plan {
        has_data,
        has_props,
        create: if !has_data {
            CreateKind::Bare
        } else if has_props {
            CreateKind::FromProps
        } else {
            CreateKind::FromDefaults
        },
    }
}

/// Holds a struct to the rules for components and plans what is generated
/// for it.
pub fn plan(shape: Shape, fields: &Vec<FieldRule>) -> (result: Result<Plan, ComponentError>)
    ensures
        result == match component_error(shape, fields@) {
            Some(error) => Err::<Plan, ComponentError>(error),
            None => Ok(planned(shape, fields@)),
        },
{
    match shape {
        Shape::Tuple => {
            return Err(ComponentError::TupleStruct);
        },
        Shape::Unit => {
            return Ok(Plan { has_data: false, has_props: false, create: CreateKind::Bare });
        },
        Shape::Named => {},
    }
    let n = fields.len();
    let mut has_props = false;
    let mut i: usize = 0;
    while i < n
        invariant
            i <= n,
            n == fields@.len(),
            shape == Shape::Named,
            forall|j: int| 0 <= j < i ==> field_error(#[trigger] fields@[j]) is None,
            has_props == exists|j: int| 0 <= j < i && (#[trigger] fields@[j]).prop == PropMark::Plain,
        decreases n - i,
    {
        let field = fields[i];
        if !field.is_private() {
            proof {
                lemma_first_error(fields@, i as int);
            }
            return Err(ComponentError::PublicField);
        }
        match field.prop {
            PropMark::WithArguments => {
                proof {
                    lemma_first_error(fields@, i as int);
                }
                return Err(ComponentError::PropArguments);
            },
            PropMark::Plain => {
                has_props = true;
            },
            PropMark::Absent => {},
        }
        i += 1;
    }
    let has_data = n > 0;
    Ok(
        Plan {
            has_data,
            has_props,
            create: if !has_data {
                CreateKind::Bare
            } else if has_props {
                CreateKind::FromProps
            } else {
                CreateKind::FromDefaults
            },
        },
    )
}

/// The first field that breaks a rule is the one that decides.
proof fn lemma_first_error(fields: Seq<FieldRule>, i: int)
    requires
        0 <= i < fields.len(),
        field_error(fields[i]) is Some,
        forall|j: int| 0 <= j < i ==> field_error(#[trigger] fields[j]) is None,
    ensures
        component_error(Shape::Named, fields) == field_error(fields[i]),
{
    let first = choose|k: int|
        0 <= k < fields.len() && field_error(#[trigger] fields[k]) is Some && forall|j: int|
            0 <= j < k ==> field_error(#[trigger] fields[j]) is None;
    assert(first == i) by {
        if first < i {
            assert(field_error(fields[first]) is None);
        }
        if i < first {
            assert(field_error(fields[i]) is None);
        }
    }
}

/// The snake case of a name, as `heck` gives it.
pub uninterp spec fn snake_case(name: Seq<char>) -> Seq<char>;

/// `heck::ToSnakeCase::to_snake_case` on a string slice: the words of the
/// name in lower case, joined by underscores.
#[verifier::external_body]
fn to_snake_case(name: &str) -> (snake: String)
    ensures
        snake@ == snake_case(name@),
{
    name.to_snake_case()
}

/// The name of the component type that belongs to a state type.
pub fn component_of_state(state: &str) -> (name: String)
    ensures
        name@ == state@ + "Component"@,
{
    let mut name = state.to_owned();
    name.append("Component");
    name
}

/// The name of the props struct of a component.
pub fn props_struct_name(component: &str) -> (name: String)
    ensures
        name@ == "_"@ + component@ + "Props"@,
{
    let mut name = "_".to_owned();
    name.append(component);
    name.append("Props");
    name
}

/// The name of the data struct of a component.
pub fn data_struct_name(component: &str) -> (name: String)
    ensures
        name@ == "_"@ + component@ + "Data"@,
{
    let mut name = "_".to_owned();
    name.append(component);
    name.append("Data");
    name
}

/// The name of the setter of a field.
pub fn setter_name(field: &str) -> (name: String)
    ensures
        name@ == "set_"@ + field@,
{
    let mut name = "set_".to_owned();
    name.append(field);
    name
}

/// The names that rendering generates for a state type: that of its
/// component type, and that of the module that holds the assertions on both,
/// which is the state's name with `RenderAssertions` after it, in snake case.
pub fn generate_ident(ident: &str) -> (names: (String, String))
    ensures
        names.0@ == ident@ + "Component"@,
        names.1@ == snake_case(ident@ + "RenderAssertions"@),
{
    let mut assertions = ident.to_owned();
    assertions.append("RenderAssertions");
    (component_of_state(ident), to_snake_case(assertions.as_str()))
}

} // verus!
