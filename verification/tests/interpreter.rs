use kari::context::Error as EvalError;
use kari::interpreter::{ErrorKind, Host, Interpreter};
use kari::parser;
use kari::reader;
use kari::source::Span;
use kari::stack::{self, Stack};
use kari::tokenizer::{self, FloatSyntax};
use kari::types::Type;
use kari::value::{Any, FloatValue, Kind};

const IS_42: u64 = 7;

struct TestHost;

impl FloatSyntax for TestHost {
    fn parse_float(&self, word: &str) -> Option<FloatValue> {
        let f: f32 = word.parse().ok()?;
        if f.is_finite() {
            Some(FloatValue { bits: f.to_bits() as u64, text: format!("{:?}", f) })
        } else {
            None
        }
    }
}

impl Host for TestHost {
    fn call(&mut self, id: u64, stack: &mut Stack, _span: Option<Span>) -> Result<(), EvalError> {
        assert_eq!(id, IS_42);
        let v = stack.pop().map_err(EvalError::Stack)?;
        let answer = match v.kind {
            Kind::Number(n) => n == 42,
            _ => false,
        };
        stack.push(Any::new(Kind::Bool(answer), v.span));
        Ok(())
    }
}

fn interpreter() -> Interpreter {
    Interpreter::new()
        .with_default_builtins()
        .expect("builtins")
        .with_builtin("is_42?", &[], IS_42)
        .expect("host builtin")
}

fn run_with(mut i: Interpreter, program: &str) -> (Result<Vec<Any>, kari::interpreter::Error>, Interpreter) {
    let mut host = TestHost;
    let r = i.run(&mut host, String::from("<test>"), program.as_bytes().to_vec());
    (r, i)
}

fn run(program: &str) -> Result<Vec<Any>, kari::interpreter::Error> {
    run_with(interpreter(), program).0
}

fn shown(values: &[Any]) -> Vec<String> {
    values.iter().map(|v| v.kind.to_display()).collect()
}

fn ok(program: &str) -> Vec<String> {
    match run(program) {
        Ok(values) => shown(&values),
        Err(e) => panic!("unexpected error: {}", e.kind.message()),
    }
}

fn eval_error(program: &str) -> EvalError {
    match run(program) {
        Ok(values) => panic!("expected an error, got {:?}", shown(&values)),
        Err(e) => match e.kind {
            ErrorKind::Context(e) => e,
            ErrorKind::Parser(p) => panic!("unexpected parse error: {}", p.message()),
        },
    }
}

#[test]
fn adds_numbers() {
    assert_eq!(ok("1 2 + "), vec!["3"]);
}

#[test]
fn arithmetic_and_comparison() {
    assert_eq!(ok("5 3 - "), vec!["2"]);
    assert_eq!(ok("6 7 * "), vec!["42"]);
    assert_eq!(ok("7 2 / "), vec!["3"]);
    assert_eq!(ok("3 2 > "), vec!["true"]);
    assert_eq!(ok("2 3 > "), vec!["false"]);
}

#[test]
fn host_builtin_is_called() {
    assert_eq!(ok("6 7 * is_42? "), vec!["true"]);
    assert_eq!(ok("6 6 * is_42? "), vec!["false"]);
}

#[test]
fn print_writes_output() {
    let (r, i) = run_with(interpreter(), "\"hello\" print 12 print ");
    assert!(r.is_ok());
    assert_eq!(i.output().as_str(), "hello12");
}

#[test]
fn output_only_grows_across_runs() {
    let (r, mut i) = run_with(interpreter(), "\"a\" print ");
    assert!(r.is_ok());
    let mut host = TestHost;
    let r = i.run(&mut host, String::from("<second>"), b"\"b\" print ".to_vec());
    assert!(r.is_ok());
    assert_eq!(i.output().as_str(), "ab");
}

#[test]
fn string_escapes_and_comments() {
    let (r, i) = run_with(interpreter(), "# a comment\n\"a\\nb\" print ");
    assert!(r.is_ok());
    assert_eq!(i.output().as_str(), "a\nb");
}

#[test]
fn defines_and_calls_functions() {
    assert_eq!(ok("[ 1 2 + ] :three define three three + "), vec!["6"]);
}

#[test]
fn if_evaluates_on_true_only() {
    assert_eq!(ok("[ 1 ] [ true ] if "), vec!["1"]);
    assert!(ok("[ 1 ] [ false ] if ").is_empty());
}

#[test]
fn if_needs_a_boolean_condition() {
    match eval_error("[ 1 ] [ 2 ] if ") {
        EvalError::Type(e) => {
            assert!(matches!(e.expected, Type::Bool));
            assert!(matches!(e.actual.kind, Kind::Number(2)));
        },
        e => panic!("unexpected error: {}", e.message()),
    }
}

#[test]
fn words_in_defined_functions_and_conditions_run_in_order() {
    assert_eq!(ok("[ 1 print 2 ] :f define f [ 7 ] [ f drop true ] if "), vec!["2", "7"]);
    let (r, i) = run_with(interpreter(), "[ 1 print 2 ] :f define [ 3 print ] [ f drop true ] if 4 print ");
    assert!(r.is_ok());
    assert_eq!(i.output().as_str(), "134");
}

#[test]
fn eval_and_map_take_what_their_lists_left_on_their_substack() {
    assert_eq!(ok("1 [ drop 5 ] eval "), vec!["[ 5 ]"]);
    assert_eq!(ok("1 [ 2 3 ] eval "), vec!["1", "[ 2 3 ]"]);
    assert_eq!(ok("1 [ 2 ] [ drop ] map "), vec!["1", "[ ]"]);
    assert_eq!(ok("[ 1 2 ] [ clone ] map "), vec!["[ 1 1 2 2 ]"]);
}

#[test]
fn map_eval_and_lists() {
    assert_eq!(ok("[ 1 2 3 ] [ 2 * ] map "), vec!["[ 2 4 6 ]"]);
    assert_eq!(ok("[ 1 2 + ] eval "), vec!["[ 3 ]"]);
    assert_eq!(ok("1 2 3 2 list "), vec!["1", "[ 2 3 ]"]);
    assert_eq!(ok("5 wrap "), vec!["[ 5 ]"]);
    assert_eq!(ok("[ 1 2 ] unwrap "), vec!["1", "2"]);
    assert_eq!(ok("[ 2 ] 1 prepend "), vec!["[ 1 2 ]"]);
    assert_eq!(ok("[ 1 ] 2 append "), vec!["[ 1 2 ]"]);
    assert_eq!(ok(":foo to_list "), vec!["[ foo ]"]);
}

#[test]
fn stack_builtins() {
    assert_eq!(ok("1 2 swap "), vec!["2", "1"]);
    assert_eq!(ok("1 2 drop "), vec!["1"]);
    assert_eq!(ok("1 clone "), vec!["1", "1"]);
    assert_eq!(ok("1 2 [ 3 ] dig "), vec!["1", "3", "2"]);
}

#[test]
fn equality_and_not() {
    assert_eq!(ok("1 1 = "), vec!["true"]);
    assert_eq!(ok("\"a\" \"b\" = "), vec!["false"]);
    assert_eq!(ok("[ 1 2 ] [ 1 2 ] = "), vec!["true"]);
    assert_eq!(ok("1 \"1\" = "), vec!["false"]);
    assert_eq!(ok("true not "), vec!["false"]);
}

#[test]
fn values_that_are_not_words_are_pushed() {
    assert_eq!(ok("1 true \"s\" :sym [ a b ] "), vec!["1", "true", "s", ":sym", "[ a b ]"]);
}

#[test]
fn floats_come_from_the_host() {
    let values = run("1.5 ").unwrap();
    match &values[0].kind {
        Kind::Float(f) => assert_eq!(f.text, "1.5"),
        k => panic!("expected a float, got {}", k.to_display()),
    }
}

#[test]
fn unknown_word_is_not_found() {
    match eval_error("nope ") {
        EvalError::FunctionNotFound { name, candidates, scope, .. } => {
            assert_eq!(name, "nope");
            assert!(candidates.is_empty());
            assert_eq!(scope, "root");
        }
        e => panic!("unexpected error: {}", e.message()),
    }
}

#[test]
fn mismatched_types_list_candidates() {
    match eval_error("1 \"a\" + ") {
        EvalError::FunctionNotFound { name, candidates, stack, .. } => {
            assert_eq!(name, "+");
            assert_eq!(candidates, vec![vec![Type::Number, Type::Number]]);
            assert_eq!(stack.to_display(), "1 a ");
        }
        e => panic!("unexpected error: {}", e.message()),
    }
}

#[test]
fn arithmetic_errors() {
    assert!(matches!(eval_error("4294967295 1 + "), EvalError::Overflow));
    assert!(matches!(eval_error("1 2 - "), EvalError::Overflow));
    assert!(matches!(eval_error("1 0 / "), EvalError::DivisionByZero));
}

#[test]
fn fail_and_caller() {
    assert!(matches!(eval_error("fail "), EvalError::Failure));
    assert!(matches!(eval_error("caller "), EvalError::Caller));
}

#[test]
fn scopes_cannot_be_compared() {
    assert!(matches!(eval_error("[ caller ] :f define f f = "), EvalError::Incomparable));
}

#[test]
fn caller_pushes_a_scope() {
    let values = run("[ caller ] :f define f ").unwrap();
    assert!(matches!(values[0].kind, Kind::Scope(_)));
}

#[test]
fn conflicting_definitions_are_refused() {
    match eval_error("[ 1 ] :a define [ 2 ] :a define ") {
        EvalError::DefineFunction(e) => assert_eq!(e.name, "a"),
        e => panic!("unexpected error: {}", e.message()),
    }
}

#[test]
fn recursion_is_limited() {
    let i = interpreter().with_depth_limit(50);
    let (r, _) = run_with(i, "[ again ] :again define again ");
    match r {
        Err(e) => assert!(matches!(e.kind, ErrorKind::Context(EvalError::RecursionLimit))),
        Ok(_) => panic!("expected an error"),
    }
}

#[test]
fn modules_are_loaded() {
    let i = interpreter().with_module(String::from("m"), b"1 2 ".to_vec());
    let (r, i) = run_with(i, "\"m\" load unwrap ");
    assert_eq!(shown(&r.unwrap()), vec!["1", "2"]);
    assert!(i.sources().iter().any(|(name, text)| name == "m" && text == "1 2 "));
    assert!(matches!(eval_error("\"x\" load "), EvalError::ModuleNotFound(n) if n == "x"));
}

#[test]
fn unexpected_list_close_is_a_parse_error() {
    match run("] ") {
        Err(e) => match &e.kind {
            ErrorKind::Parser(parser::Error::UnexpectedToken(t)) => {
                assert!(matches!(t.kind, tokenizer::TokenKind::ListClose));
                assert_eq!(e.kind.message(), "Unexpected token: `]`");
            }
            _ => panic!("expected an unexpected token"),
        },
        Ok(_) => panic!("expected an error"),
    }
}

#[test]
fn unknown_escape_codes_are_refused() {
    match run("\"a\\x\" ") {
        Err(e) => match e.kind {
            ErrorKind::Parser(parser::Error::Tokenizer(tokenizer::Error::UnexpectedEscapeCode(c))) => {
                assert_eq!(c, 'x')
            }
            _ => panic!("expected an escape code error"),
        },
        Ok(_) => panic!("expected an error"),
    }
}

#[test]
fn invalid_utf8_is_refused() {
    let mut i = interpreter();
    let mut host = TestHost;
    let r = i.run(&mut host, String::from("<bytes>"), vec![b'1', b' ', 0xff, 0xff, 0xff, 0xff, b' ']);
    match r {
        Err(e) => match e.kind {
            ErrorKind::Parser(parser::Error::Tokenizer(tokenizer::Error::Reader(reader::Error::Utf8 { index }))) => {
                assert_eq!(index, 2)
            }
            _ => panic!("expected a UTF-8 error"),
        },
        Ok(_) => panic!("expected an error"),
    }
}

#[test]
fn stack_error_message() {
    assert_eq!(stack::Error::StackEmpty.message(), "Tried to pop value, but stack is empty");
}

#[test]
fn error_reports_show_the_source() {
    let (r, i) = run_with(interpreter(), "1 nope\n");
    let e = r.unwrap_err();
    let report = e.print(i.sources());
    assert!(report.contains("ERROR:"));
    assert!(report.contains("No matching function found: `nope`"));
    assert!(report.contains("Called by:"));
    assert!(report.contains("<test>:1:3"));
    assert!(report.contains("1 nope"));
    assert!(report.contains("No functions of that name found."));
    assert!(report.contains("`root`"));
}

#[test]
fn type_errors_report_the_value() {
    let mut stack = Stack::new();
    stack.push(Any::new(Kind::Number(1), None));
    let e = kari::value::cast(Any::new(Kind::Number(1), None), Type::Bool).unwrap_err();
    assert_eq!(e.message(), "Type error: Expected `bool`, found `1`");
    assert_eq!(stack.len(), 1);
}

#[test]
fn whitespace_of_any_kind_delimits_words() {
    assert_eq!(ok("1\n2\t+\r\n"), ok("1 2 + "));
}

#[test]
fn printed_numbers_read_back() {
    let (r, i) = run_with(interpreter(), "4294967295 print ");
    assert!(r.is_ok());
    let mut text = i.output().clone();
    text.push(' ');
    assert_eq!(ok(&text), vec!["4294967295"]);
}

#[test]
fn any_matches_every_type() {
    assert!(Type::Any.matches(&Type::Float));
    assert!(Type::Word.matches(&Type::Any));
    assert!(!Type::Word.matches(&Type::Symbol));
    assert_eq!(Type::Symbol.name(), "symbol");
}

#[test]
fn default_builtins_refuse_a_conflicting_root() {
    let taken = Interpreter::new().with_builtin("print", &[Type::Any], IS_42).expect("host builtin");
    match taken.with_default_builtins() {
        Ok(_) => panic!("expected a conflict"),
        Err(e) => {
            assert_eq!(e.name, "print");
            assert_eq!(e.conflicting, vec![vec![Type::Any]]);
        }
    }
}

#[test]
fn no_floats_recognizes_no_float() {
    assert!(tokenizer::NoFloats.parse_float("1.5").is_none());
    assert!(tokenizer::NoFloats.parse_float("0.0").is_none());
}

#[test]
fn a_program_may_end_in_a_word() {
    assert_eq!(ok("6 7 * is_42?"), vec!["true"]);
    assert_eq!(ok("1 2 +"), vec!["3"]);
    assert_eq!(ok("1 2"), vec!["1", "2"]);
    assert_eq!(ok(":a"), vec![":a"]);
}
