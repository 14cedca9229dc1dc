use papito_dom::codegen::{
    check_event, check_handler, component_of_state, data_struct_name, generate_ident, plan, props_struct_name,
    setter_name, Argument, ComponentError, CreateKind, EventError, FieldRule, HandlerError, Plan, PropMark,
    Shape, Signature,
};

fn signature(private: bool, is_unsafe: bool, returns: bool, arguments: &[Argument]) -> Signature {
    Signature { private, is_unsafe, returns, arguments: arguments.to_vec() }
}

#[test]
fn an_event_method_is_private_safe_and_takes_self_and_an_event() {
    let good = [Argument::SelfRef, Argument::Typed];
    assert_eq!(check_event(&signature(true, false, false, &good)), Ok(()));
    assert_eq!(
        check_event(&signature(true, false, false, &[Argument::SelfRef, Argument::Typed, Argument::Typed])),
        Ok(())
    );
    assert_eq!(check_event(&signature(false, true, true, &[])), Err(EventError::NotPrivate));
    assert_eq!(check_event(&signature(true, true, true, &[])), Err(EventError::Unsafe));
    assert_eq!(check_event(&signature(true, false, true, &[])), Err(EventError::ReturnType));
    assert_eq!(check_event(&signature(true, false, false, &[])), Err(EventError::NoSelf));
    assert_eq!(check_event(&signature(true, false, false, &[Argument::SelfMut])), Err(EventError::NoEvent));
    assert_eq!(
        check_event(&signature(true, false, false, &[Argument::SelfMut, Argument::Other])),
        Err(EventError::MutableSelf)
    );
    assert_eq!(
        check_event(&signature(true, false, false, &[Argument::SelfValue, Argument::Typed])),
        Err(EventError::NotSelf)
    );
    assert_eq!(
        check_event(&signature(true, false, false, &[Argument::Typed, Argument::Typed])),
        Err(EventError::NotSelf)
    );
    assert_eq!(
        check_event(&signature(true, false, false, &[Argument::SelfRef, Argument::Other])),
        Err(EventError::UntypedEvent)
    );
}

#[test]
fn a_handler_takes_self_and_an_event_and_returns_nothing() {
    assert_eq!(check_handler(&signature(false, true, false, &[Argument::SelfRef, Argument::Typed])), Ok(false));
    assert_eq!(check_handler(&signature(true, false, false, &[Argument::SelfMut, Argument::Typed])), Ok(true));
    assert_eq!(check_handler(&signature(true, false, true, &[])), Err(HandlerError::ReturnType));
    assert_eq!(check_handler(&signature(true, false, false, &[])), Err(HandlerError::NoSelf));
    assert_eq!(check_handler(&signature(true, false, false, &[Argument::Typed])), Err(HandlerError::NoEvent));
    assert_eq!(
        check_handler(&signature(true, false, false, &[Argument::Typed, Argument::Other, Argument::Typed])),
        Err(HandlerError::TooManyArguments)
    );
    assert_eq!(
        check_handler(&signature(true, false, false, &[Argument::SelfValue, Argument::Typed])),
        Err(HandlerError::NotSelf)
    );
    assert_eq!(
        check_handler(&signature(true, false, false, &[Argument::SelfMut, Argument::SelfRef])),
        Err(HandlerError::UntypedEvent)
    );
}

fn field(private: bool, prop: PropMark) -> FieldRule {
    FieldRule { private, prop }
}

#[test]
fn a_component_gets_data_for_its_fields_and_props_for_the_marked_ones() {
    assert_eq!(
        plan(Shape::Unit, &vec![]),
        Ok(Plan { has_data: false, has_props: false, create: CreateKind::Bare })
    );
    assert_eq!(
        plan(Shape::Named, &vec![]),
        Ok(Plan { has_data: false, has_props: false, create: CreateKind::Bare })
    );
    assert_eq!(
        plan(Shape::Named, &vec![field(true, PropMark::Absent), field(true, PropMark::Absent)]),
        Ok(Plan { has_data: true, has_props: false, create: CreateKind::FromDefaults })
    );
    assert_eq!(
        plan(Shape::Named, &vec![field(true, PropMark::Absent), field(true, PropMark::Plain)]),
        Ok(Plan { has_data: true, has_props: true, create: CreateKind::FromProps })
    );
}

#[test]
fn a_component_is_refused_for_the_first_rule_it_breaks() {
    assert_eq!(plan(Shape::Tuple, &vec![field(false, PropMark::Plain)]), Err(ComponentError::TupleStruct));
    assert_eq!(
        plan(Shape::Named, &vec![field(true, PropMark::Plain), field(false, PropMark::WithArguments)]),
        Err(ComponentError::PublicField)
    );
    assert_eq!(
        plan(
            Shape::Named,
            &vec![field(true, PropMark::Plain), field(true, PropMark::WithArguments), field(false, PropMark::Absent)]
        ),
        Err(ComponentError::PropArguments)
    );
}

#[test]
fn generated_items_are_named_after_the_component() {
    assert_eq!(component_of_state("Button"), "ButtonComponent");
    assert_eq!(props_struct_name("Button"), "_ButtonProps");
    assert_eq!(data_struct_name("Button"), "_ButtonData");
    assert_eq!(setter_name("label"), "set_label");
}

#[test]
fn the_assertions_module_is_named_in_snake_case() {
    assert_eq!(
        generate_ident("TodoList"),
        ("TodoListComponent".to_string(), "todo_list_render_assertions".to_string())
    );
    assert_eq!(generate_ident("Button").1, "button_render_assertions");
}
