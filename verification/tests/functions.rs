use kari::functions::{DefineError, Functions};
use kari::stack::Stack;
use kari::types::Type;
use kari::value::{Any, FloatValue, Kind};

type Result = std::result::Result<(), DefineError>;

fn number(n: u32) -> Any {
    Any::new(Kind::Number(n), None)
}

fn float(text: &str) -> Any {
    Any::new(
        Kind::Float(FloatValue { bits: 0, text: String::from(text) }),
        None,
    )
}

fn name(s: &str) -> String {
    String::from(s)
}

#[test]
fn functions_it_should_return_none_if_function_wasnt_defined() {
    let functions = Functions::<()>::new();
    let scope = functions.root_scope();
    let stack = Stack::new();

    let result = functions.get(scope, &name("a"), &stack);

    assert!(result.is_err());
}

#[test]
fn functions_it_should_return_functions_that_were_defined() -> Result {
    let mut functions = Functions::new();
    let scope = functions.root_scope();
    let mut stack = Stack::new();

    functions.define(scope, name("a"), &[Type::Number, Type::Float], 1)?;
    stack.push(number(0));
    stack.push(float("0.0"));

    let result = functions.get(scope, &name("a"), &stack);

    assert_eq!(result, Ok(1));
    Ok(())
}

#[test]
fn functions_it_should_return_the_function_that_matches_the_types_on_the_stack() -> Result {
    let mut functions = Functions::new();
    let scope = functions.root_scope();
    let mut stack = Stack::new();

    functions.define(scope, name("a"), &[Type::Number, Type::Float], 1)?;
    functions.define(scope, name("a"), &[Type::Number, Type::Number], 2)?;
    stack.push(number(0));
    stack.push(float("0.0"));

    let result = functions.get(scope, &name("a"), &stack);

    assert_eq!(result, Ok(1));
    Ok(())
}

#[test]
fn functions_it_should_return_function_without_args_regardless_of_stack() -> Result {
    let mut functions = Functions::new();
    let scope = functions.root_scope();
    let mut stack = Stack::new();

    functions.define(scope, name("a"), &[], 1)?;
    stack.push(number(0));
    stack.push(float("0.0"));

    let result = functions.get(scope, &name("a"), &stack);

    assert_eq!(result, Ok(1));
    Ok(())
}

#[test]
fn functions_it_should_return_list_of_candidates_if_function_doesnt_match_stack() -> Result {
    let mut functions = Functions::new();
    let scope = functions.root_scope();
    let mut stack = Stack::new();

    functions.define(scope, name("a"), &[Type::Number, Type::Float], 1)?;
    functions.define(scope, name("a"), &[Type::Float, Type::Float], 2)?;
    stack.push(number(0));
    stack.push(number(0));

    let error = match functions.get(scope, &name("a"), &stack) {
        Ok(_) => panic!("Expected error"),
        Err(error) => error,
    };

    assert!(error.candidates.contains(&vec![Type::Number, Type::Float]));
    assert!(error.candidates.contains(&vec![Type::Float, Type::Float]));

    Ok(())
}

#[test]
fn functions_it_should_reject_functions_that_are_already_defined() -> Result {
    let mut functions = Functions::new();
    let scope = functions.root_scope();

    functions.define(scope, name("a"), &[Type::Number, Type::Number], 1)?;
    let result = functions.define(scope, name("a"), &[Type::Number, Type::Number], 2);

    assert!(result.is_err());
    Ok(())
}

#[test]
fn functions_it_should_reject_functions_more_specific_than_a_defined_function() -> Result {
    let mut functions = Functions::new();
    let scope = functions.root_scope();

    functions.define(scope, name("a"), &[Type::Number, Type::Number], 1)?;
    let err = functions
        .define(scope, name("a"), &[Type::Number], 2)
        .unwrap_err();

    assert_eq!(err.name, String::from("a"));
    assert_eq!(err.conflicting.len(), 1);
    assert!(err.conflicting.contains(&vec![Type::Number, Type::Number]));

    Ok(())
}

#[test]
fn functions_it_should_reject_no_arg_functions_if_name_is_already_taken() -> Result {
    let mut functions = Functions::new();
    let scope = functions.root_scope();

    functions.define(scope, name("a"), &[Type::Number], 1)?;
    let err = functions.define(scope, name("a"), &[], 2).unwrap_err();

    assert_eq!(err.name, String::from("a"));
    assert_eq!(err.conflicting.len(), 1);
    assert!(err.conflicting.contains(&vec![Type::Number]));

    Ok(())
}

#[test]
fn functions_it_should_reject_functions_less_specific_than_a_defined_function() -> Result {
    let mut functions = Functions::new();
    let scope = functions.root_scope();

    functions.define(scope, name("a"), &[Type::Number], 1)?;
    let err = functions
        .define(scope, name("a"), &[Type::Number, Type::Number], 2)
        .unwrap_err();

    assert_eq!(err.name, String::from("a"));
    assert_eq!(err.conflicting.len(), 1);
    assert!(err.conflicting.contains(&vec![Type::Number]));

    Ok(())
}

#[test]
fn it_should_find_function_defined_in_parent_scope() -> Result {
    let mut functions = Functions::new();
    let stack = Stack::new();

    let parent_scope = functions.root_scope();
    let child_scope = functions.new_scope(parent_scope, name("child"));

    functions.define(parent_scope, name("a"), &[], 1)?;

    let result = functions.get(child_scope, &name("a"), &stack);

    assert_eq!(result, Ok(1));
    Ok(())
}

#[test]
fn it_should_not_find_function_defined_in_child_scope() -> Result {
    let mut functions = Functions::new();
    let stack = Stack::new();

    let parent_scope = functions.root_scope();
    let child_scope = functions.new_scope(parent_scope, name("child"));

    functions.define(child_scope, name("a"), &[], 1)?;

    let result = functions.get(parent_scope, &name("a"), &stack);

    assert!(result.is_err());
    Ok(())
}
