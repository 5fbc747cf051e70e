use kari::call_stack::{CallStack, StackFrame};
use kari::functions::{Functions, Scope};
use kari::iter::ErrorIter;
use kari::report::push_source;
use kari::signature::Signature;
use kari::source::{Position, Span};
use kari::stack::Stack;
use kari::types::Type;
use kari::value::{Any, Kind};

fn number(n: u32) -> Any {
    Any::new(Kind::Number(n), None)
}

#[test]
fn call_stack_operator_and_caller() {
    let mut cs = CallStack::new();
    assert!(cs.caller().is_none());
    cs.frames.push(StackFrame { scope: Scope(0), span: None });
    assert!(cs.caller().is_none());
    cs.frames.push(StackFrame { scope: Scope(3), span: None });
    assert_eq!(cs.operator().scope, Scope(3));
    assert_eq!(cs.caller().unwrap().scope, Scope(0));
}

#[test]
fn error_iter_stops_after_the_first_error() {
    let mut it = ErrorIter::new(vec![Ok(1), Err("e"), Ok(2)]);
    assert_eq!(it.next(), Some(Ok(1)));
    assert_eq!(it.next(), Some(Err("e")));
    assert_eq!(it.next(), None);
}

#[test]
fn peeked_results_are_handed_out_next() {
    let mut it: ErrorIter<u32, &str> = ErrorIter::new(vec![Ok(1), Ok(2)]);
    assert_eq!(it.peek(), Some(&Ok(1)));
    assert_eq!(it.next(), Some(Ok(1)));
    assert_eq!(it.next(), Some(Ok(2)));
    assert_eq!(it.next(), None);
}

#[test]
fn take_until_error_keeps_the_error() {
    let it = ErrorIter::new(vec![Ok(1), Ok(2), Err("e"), Ok(3)]);
    let mut values = it.take_until_error();
    assert_eq!(values.next(), Some(1));
    assert_eq!(values.next(), Some(2));
    assert_eq!(values.next(), None);
    assert_eq!(values.next(), None);
    assert_eq!(values.error(), Some("e"));
}

#[test]
fn signatures_match_by_name_and_types() {
    let a = Signature { name: String::from("f"), args: vec![Type::Number, Type::Any] };
    let b = Signature { name: String::from("f"), args: vec![Type::Number, Type::Bool] };
    let c = Signature { name: String::from("g"), args: vec![Type::Number, Type::Any] };
    let d = Signature { name: String::from("f"), args: vec![Type::Float] };
    assert!(a.matches(&b));
    assert!(!a.matches(&c));
    assert!(!a.matches(&d));
}

#[test]
fn stack_push_pop_and_substacks() {
    let mut s = Stack::new();
    s.push(number(1));
    s.push(number(2));
    s.create_substack();
    s.push(number(3));
    let top = s.destroy_substack();
    assert_eq!(top.len(), 1);
    assert_eq!(s.len(), 2);
    let (a, b) = s.pop2().unwrap();
    assert!(matches!((a.kind, b.kind), (Kind::Number(1), Kind::Number(2))));
    assert!(s.pop().is_err());
}

#[test]
fn a_defined_function_is_found_from_a_child_scope_only_downwards() {
    let mut fs = Functions::new();
    let root = fs.root_scope();
    let child = fs.new_scope(root, String::from("child"));
    let grandchild = fs.new_scope(child, String::from("grandchild"));
    fs.define(child, String::from("f"), &[Type::Number], 'c').unwrap();
    let mut stack = Stack::new();
    stack.push(number(1));
    assert_eq!(fs.get(grandchild, &String::from("f"), &stack), Ok('c'));
    assert!(fs.get(root, &String::from("f"), &stack).is_err());
    assert_eq!(fs.parent(grandchild), Some(child));
    assert_eq!(fs.parent(root), None);
}

#[test]
fn source_is_shown_with_markers() {
    let span = Span {
        stream_name: String::from("s"),
        start: Position { line: 0, column: 2, index: 2 },
        end: Position { line: 0, column: 3, index: 3 },
    };
    let mut out = String::new();
    push_source(&mut out, &String::from("a\tbc d\n"), &span);
    let expected = format!(
        "  {m}=> {lb}s:1:3{r}\n\n{lb}    1 {m}| {b}{lw}a    bc d{r}{rs}\n        {lr}{b}     ^^  {rs}{r}\n",
        m = "\x1b[38;5;5m",
        lb = "\x1b[38;5;12m",
        r = "\x1b[39m",
        b = "\x1b[1m",
        lw = "\x1b[38;5;15m",
        rs = "\x1b[m",
        lr = "\x1b[38;5;9m",
    );
    assert_eq!(out, expected);
}

#[test]
fn collect_values_stops_at_the_first_error() {
    let mut values = ErrorIter::new(vec![Ok(1), Ok(2), Err("e"), Ok(3)]).take_until_error();
    assert_eq!(values.collect_values(), vec![1, 2]);
    assert_eq!(values.collect_values(), Vec::<i32>::new());
    assert_eq!(values.error(), Some("e"));
    let mut clean: kari::iter::TakeUntilError<u32, &str> = ErrorIter::new(vec![Ok(4), Ok(5)]).take_until_error();
    assert_eq!(clean.collect_values(), vec![4, 5]);
    assert_eq!(clean.error(), None);
}

#[test]
fn collect_results_ends_with_the_first_error() {
    let mut it = ErrorIter::new(vec![Ok(1), Ok(2), Err("e"), Ok(3)]);
    assert_eq!(it.collect_results(), vec![Ok(1), Ok(2), Err("e")]);
    assert_eq!(it.collect_results(), Vec::<Result<i32, &str>>::new());
    let mut peeked: ErrorIter<u32, &str> = ErrorIter::new(vec![Ok(4), Ok(5)]);
    assert_eq!(peeked.peek(), Some(&Ok(4)));
    assert_eq!(peeked.collect_results(), vec![Ok(4), Ok(5)]);
}
