use kari::scope::{DefineError, Scope};
use kari::stack::Stack;
use kari::types::Type;
use kari::value::{Any, FloatValue, Kind};

type Result = std::result::Result<(), DefineError>;

fn number(n: u32) -> Any {
    Any::new(Kind::Number(n), None)
}

fn float(text: &str) -> Any {
    Any::new(
        Kind::Float(FloatValue { bits: 0, text: String::from(text) }),
        None,
    )
}

fn name(s: &str) -> String {
    String::from(s)
}

#[test]
fn scope_it_should_return_none_if_function_wasnt_defined() {
    let scope = Scope::<()>::root();
    let stack = Stack::new();

    let result = scope.get(&name("a"), &stack);

    assert!(result.is_err());
}

#[test]
fn scope_it_should_return_functions_that_were_defined() -> Result {
    let mut scope = Scope::root();
    let mut stack = Stack::new();

    scope.define(name("a"), &[Type::Number, Type::Float], 1)?;
    stack.push(number(0));
    stack.push(float("0.0"));

    let result = scope.get(&name("a"), &stack);

    assert_eq!(result, Ok(1));
    Ok(())
}

#[test]
fn scope_it_should_return_the_function_that_matches_the_types_on_the_stack() -> Result {
    let mut scope = Scope::root();
    let mut stack = Stack::new();

    scope.define(name("a"), &[Type::Number, Type::Float], 1)?;
    scope.define(name("a"), &[Type::Number, Type::Number], 2)?;
    stack.push(number(0));
    stack.push(float("0.0"));

    let result = scope.get(&name("a"), &stack);

    assert_eq!(result, Ok(1));
    Ok(())
}

#[test]
fn scope_it_should_return_function_without_args_regardless_of_stack() -> Result {
    let mut scope = Scope::root();
    let mut stack = Stack::new();

    scope.define(name("a"), &[], 1)?;
    stack.push(number(0));
    stack.push(float("0.0"));

    let result = scope.get(&name("a"), &stack);

    assert_eq!(result, Ok(1));
    Ok(())
}

#[test]
fn scope_it_should_return_list_of_candidates_if_function_doesnt_match_stack() -> Result {
    let mut scope = Scope::root();
    let mut stack = Stack::new();

    scope.define(name("a"), &[Type::Number, Type::Float], 1)?;
    scope.define(name("a"), &[Type::Float, Type::Float], 2)?;
    stack.push(number(0));
    stack.push(number(0));

    let error = match scope.get(&name("a"), &stack) {
        Ok(_) => panic!("Expected error"),
        Err(error) => error,
    };

    assert!(error.candidates.contains(&vec![Type::Number, Type::Float]));
    assert!(error.candidates.contains(&vec![Type::Float, Type::Float]));

    Ok(())
}

#[test]
fn scope_it_should_reject_functions_that_are_already_defined() -> Result {
    let mut scope = Scope::root();

    scope.define(name("a"), &[Type::Number, Type::Number], 1)?;
    let result = scope.define(name("a"), &[Type::Number, Type::Number], 2);

    assert!(result.is_err());
    Ok(())
}

#[test]
fn scope_it_should_reject_functions_more_specific_than_a_defined_function() -> Result {
    let mut scope = Scope::root();

    scope.define(name("a"), &[Type::Number, Type::Number], 1)?;
    let result = scope.define(name("a"), &[Type::Number], 2);

    assert!(result.is_err());
    Ok(())
}

#[test]
fn scope_it_should_reject_no_arg_functions_if_name_is_already_taken() -> Result {
    let mut scope = Scope::root();

    scope.define(name("a"), &[Type::Number], 1)?;
    let result = scope.define(name("a"), &[], 2);

    assert!(result.is_err());
    Ok(())
}

#[test]
fn scope_it_should_reject_functions_less_specific_than_a_defined_function() -> Result {
    let mut scope = Scope::root();

    scope.define(name("a"), &[Type::Number], 1)?;
    let result = scope.define(name("a"), &[Type::Number, Type::Number], 2);

    assert!(result.is_err());
    Ok(())
}

#[test]
fn it_should_return_functions_that_were_defined_in_parent_scope() -> Result {
    let mut scope = Scope::root();
    let mut stack = Stack::new();

    scope.define(name("a"), &[Type::Number, Type::Float], 1)?;
    stack.push(number(0));
    stack.push(float("0.0"));

    let result = scope.child().get(&name("a"), &stack);

    assert_eq!(result, Ok(1));
    Ok(())
}

#[test]
fn it_should_not_return_functions_that_were_defined_in_child_scope() -> Result {
    let scope = Scope::root();
    let mut stack = Stack::new();

    scope.child().define(name("a"), &[Type::Number, Type::Float], 1)?;
    stack.push(number(0));
    stack.push(float("0.0"));

    let result = scope.get(&name("a"), &stack);

    assert!(result.is_err());
    Ok(())
}
