//! The interpreter: it parses programs and evaluates their values.

use vstd::prelude::*;

use crate::{
    call_stack::{CallStack, StackFrame},
    context::Error as EvalError,
    functions::{define_conflicts, DefineError, Functions, GetError, Scope},
    node::{exact_match, find_from, is_chain, signatures_view, stack_types, Node},
    parser::{self, error_matches, expr_matches, parse_all_spec, ExprView, Expression},
    convert::lemma_value_fits_view,
    pipeline::Pipeline,
    semantics::{
        after_pop1,
        after_pop2,
        builtin_low,
        builtin_step,
        evaluation_trace,
        call_frame,
        dig_frame,
        eval_frame,
        lemma_map_trace_push,
        map_frame,
        map_trace,
        dig_outcome,
        if_frame,
        if_outcome,
        items_trace,
        lemma_items_trace_push,
        lemma_list_evaluation_intro,
        lemma_nested_outcomes_ignore_frames,
        list_evaluation,
        same_but_frames,
        trace_ends,
        scope_added,
        value_outcome,
        caller_outcome,
        cast1,
        cast2,
        define_in_scope_outcome,
        define_outcome,
        down_to,
        eval_outcome,
        extend_outcome,
        initial_state,
        is_pure,
        lemma_pure,
        lemma_simple_run_push,
        lemma_step_adds_scopes,
        lesser,
        host_outcome,
        list_outcome,
        load_outcome,
        map_low,
        map_outcome,
        map_run,
        merge_down,
        module_list,
        number_result,
        numbered_from,
        pops,
        pure_effect,
        run_low,
        same_result,
        simple_run,
        step,
        step_low,
        to_list_outcome,
        values_fit_views,
        wrap_outcome,
    },
    source::{opt_span_merge, Span},
    stack::{self, clamp_bases, lemma_clamp_twice, Stack},
    text::str_to_string,
    tokenizer::FloatSyntax,
    types::{type_eq, Type},
    value::{clone_items, clone_span, display, kind_eq, Any, Kind, ListInner, TypeError},
};

verus! {

/// The builtin functions of the language, and those of the host.
#[derive(Clone, Copy, Debug, PartialEq, Eq, Structural)]
pub enum Builtin {
    Print,
    Define,
    DefineS,
    Caller,
    Fail,
    Eval,
    Load,
    ToList,
    Drop,
    Clone,
    Swap,
    Dig,
    If,
    List,
    MapEach,
    Wrap,
    Unwrap,
    Prepend,
    Append,
    AddN,
    SubN,
    MulN,
    DivN,
    GtN,
    Eq,
    Not,
    /// A builtin of the host, by the number the host gave it.
    Host(u64),
}

/// A function: a builtin, or a list defined by the program.
#[derive(Debug)]
pub enum Function {
    Builtin(Builtin),
    UserDefined { body: ListInner },
}

impl Clone for Function {
    fn clone(&self) -> (r: Self)
        ensures
            r == *self,
    {
        match self {
            Function::Builtin(b) => Function::Builtin(*b),
            Function::UserDefined { body } => Function::UserDefined { body: body.clone() },
        }
    }
}

/// The application that embeds the interpreter: it runs its own builtins and
/// recognizes floating-point literals.
pub trait Host: FloatSyntax {
    /// Runs the host's builtin `id` on the stack; `span` is where the word
    /// that called it stands.
    fn call(&mut self, id: u64, stack: &mut Stack, span: Option<Span>) -> Result<(), EvalError>;
}

/// An error, with the functions that were being evaluated when it occurred.
#[derive(Debug)]
pub struct Error {
    pub kind: ErrorKind,
    pub call_stack: CallStack,
}

/// What went wrong: evaluating, or parsing the program.
#[derive(Debug)]
pub enum ErrorKind {
    Context(EvalError),
    Parser(parser::Error),
}

impl ErrorKind {
    /// The place in the source that the error refers to, if any.
    pub fn span(self) -> (r: Option<Span>)
        ensures
            r == match self {
                ErrorKind::Context(e) => crate::context::first_span(crate::context::eval_spans(e)),
                ErrorKind::Parser(e) => crate::context::first_span(crate::context::eval_spans(EvalError::Parser(e))),
            },
    {
        let mut spans = self.spans();
        if spans.len() > 0 {
            Some(spans.remove(0))
        } else {
            None
        }
    }

    /// The places in the source that the error refers to.
    pub fn spans(&self) -> (r: Vec<Span>)
        ensures
            r@ == match self {
                ErrorKind::Context(e) => crate::context::eval_spans(*e),
                ErrorKind::Parser(e) => crate::context::eval_spans(EvalError::Parser(*e)),
            },
            r@.len() <= 1,
            self matches ErrorKind::Parser(e) ==> (match e {
                parser::Error::UnexpectedToken(t) => match t.span {
                    Some(s) => r@ == seq![s],
                    None => r@.len() == 0,
                },
                _ => r@.len() == 0,
            }),
    {
        match self {
            ErrorKind::Context(e) => e.spans(),
            ErrorKind::Parser(e) => e.spans(),
        }
    }
}

/// The default limit on how deeply functions nest: none that a program could
/// reach, so that deep nesting runs until the machine's own stack gives out.
/// A host that wants a bound sets one with `with_depth_limit`.
pub const DEFAULT_DEPTH_LIMIT: u64 = 18446744073709551615;

/// The interpreter: the functions defined, the stack, the functions being
/// evaluated, the modules that can be loaded, the text of every stream read,
/// and what the program printed.
pub struct Interpreter {
    streams: Vec<(String, Vec<u8>)>,
    sources: Vec<(String, String)>,
    output: String,
    depth_limit: u64,
    functions: Functions<Function>,
    stack: Stack,
    call_stack: CallStack,
    /// Every call of a builtin of the host: its id, the stack it was given,
    /// and where the word that called it stands.
    host_calls: Ghost<Seq<(u64, Seq<Any>, Option<Span>)>>,
}

/// Whether a builtin only works on the stack.
fn builtin_is_pure(b: Builtin) -> (r: bool)
    ensures
        r == is_pure(b),
{
    match b {
        Builtin::Fail | Builtin::Drop | Builtin::Swap | Builtin::Clone | Builtin::Not | Builtin::Eq
        | Builtin::Unwrap | Builtin::AddN | Builtin::SubN | Builtin::MulN | Builtin::DivN
        | Builtin::GtN => true,
        _ => false,
    }
}

impl Interpreter {
    /// The functions defined.
    pub closed spec fn fns(&self) -> Functions<Function> {
        self.functions
    }

    /// The values on the stack, bottom first.
    pub closed spec fn values(&self) -> Seq<Any> {
        self.stack@
    }

    /// Where the substacks of the stack begin.
    pub closed spec fn bases(&self) -> Seq<int> {
        self.stack.bases()
    }

    /// The frames of the functions being evaluated.
    pub closed spec fn frames(&self) -> Seq<StackFrame> {
        self.call_stack.frames@
    }

    /// What the program printed.
    pub closed spec fn out(&self) -> Seq<char> {
        self.output@
    }

    /// The modules that can be loaded, by name.
    pub closed spec fn modules(&self) -> Seq<(String, Vec<u8>)> {
        self.streams@
    }

    /// The text read of every stream, by name.
    pub closed spec fn texts(&self) -> Seq<(String, String)> {
        self.sources@
    }

    /// The limit on how deeply functions nest.
    pub closed spec fn limit(&self) -> u64 {
        self.depth_limit
    }

    /// The calls of the host's builtins so far, in order: each builtin's id,
    /// the stack it was given, and where the word that called it stands.
    pub closed spec fn host_calls(&self) -> Seq<(u64, Seq<Any>, Option<Span>)> {
        self.host_calls@
    }

    /// What every evaluation step keeps: scopes and functions are only ever
    /// added, what was printed stays printed, and the modules and the limit
    /// stay as they are.
    pub open spec fn evolves_from(&self, earlier: &Self) -> bool {
        &&& self.fns().extends(&earlier.fns())
        &&& earlier.out().is_prefix_of(self.out())
        &&& earlier.texts().is_prefix_of(self.texts())
        &&& self.modules() == earlier.modules()
        &&& self.limit() == earlier.limit()
    }

    /// Only the stack differs.
    pub open spec fn same_but_stack(&self, earlier: &Self) -> bool {
        &&& self.fns() == earlier.fns()
        &&& self.out() == earlier.out()
        &&& self.frames() == earlier.frames()
        &&& self.modules() == earlier.modules()
        &&& self.texts() == earlier.texts()
        &&& self.limit() == earlier.limit()
    }

    /// An interpreter without functions, modules or values.
    pub fn new() -> (r: Interpreter)
        ensures
            r.fns().scope_count() == 1,
            forall|name: Seq<char>| #[trigger] r.fns().node_of(Scope(0), name) is None,
            r.values() == Seq::<Any>::empty(),
            r.frames() == Seq::<StackFrame>::empty(),
            r.out() == Seq::<char>::empty(),
            r.modules() == Seq::<(String, Vec<u8>)>::empty(),
            r.texts() == Seq::<(String, String)>::empty(),
            r.limit() == DEFAULT_DEPTH_LIMIT,
            r.host_calls() == Seq::<(u64, Seq<Any>, Option<Span>)>::empty(),
    {
        Interpreter {
            streams: Vec::new(),
            sources: Vec::new(),
            output: String::new(),
            depth_limit: DEFAULT_DEPTH_LIMIT,
            functions: Functions::new(),
            stack: Stack::new(),
            call_stack: CallStack::new(),
            host_calls: Ghost(Seq::empty()),
        }
    }

    /// The interpreter with a different limit on how deeply functions nest.
    pub fn with_depth_limit(self, limit: u64) -> (r: Interpreter)
        ensures
            r.limit() == limit,
            r.fns() == self.fns(),
            r.values() == self.values(),
            r.modules() == self.modules(),
    {
        let mut s = self;
        s.depth_limit = limit;
        s
    }

    /// Makes a module available to `load` under `name`.
    pub fn with_module(self, name: String, stream: Vec<u8>) -> (r: Interpreter)
        ensures
            r.modules() == self.modules().push((name, stream)),
            r.fns() == self.fns(),
            r.values() == self.values(),
            r.limit() == self.limit(),
    {
        let mut s = self;
        s.streams.push((name, stream));
        s
    }

    /// Defines a builtin of the host under `name` in the root scope, for
    /// arguments of the types `args` (deepest on the stack first).
    pub fn with_builtin(self, name: &str, args: &[Type], id: u64) -> (r: Result<Interpreter, DefineError>)
        ensures
            r is Err <==> crate::functions::define_conflicts(self.fns().node_of(Scope(0), name@), args@) is Some,
            r matches Ok(i) ==> i.fns().extends(&self.fns()) && (forall|tys: Seq<Type>| #[trigger]
                exact_match(args@, tys) ==> i.fns().lookup_in(Scope(0), name@, tys) == Some(
                Function::Builtin(Builtin::Host(id)),
            )) && i.values() == self.values() && i.modules() == self.modules(),
    {
        let mut s = self;
        let root = s.functions.root_scope();
        match s.functions.define(root, str_to_string(name), args, Function::Builtin(Builtin::Host(id))) {
            Ok(()) => Ok(s),
            Err(e) => Err(e),
        }
    }

    /// Defines the builtin functions of the language in the root scope.
    pub fn with_default_builtins(self) -> (r: Result<Interpreter, DefineError>)
        ensures
            r matches Ok(i) ==> i.fns().extends(&self.fns()) && builtins_defined(i.fns())
                && i.values() == self.values() && i.modules() == self.modules() && i.limit()
                == self.limit(),
            (forall|k: int| 0 <= k < builtin_table().len() ==> #[trigger] self.fns().node_of(
                Scope(0),
                builtin_table()[k].0,
            ) is None) ==> r is Ok,
    {
        let mut s = self;
        proof {
            assert forall|k: int| 0 <= k < builtin_table().len() && #[trigger] s.fns().node_of(
                Scope(0),
                builtin_table()[k].0,
            ) is None implies s.functions.node_of(Scope(0), builtin_table()[k].0) is None by {}
        }
        match builtins(&mut s.functions) {
            Ok(()) => Ok(s),
            Err(e) => Err(e),
        }
    }

    /// The root scope, in which programs are evaluated.
    pub fn root_scope(&self) -> (r: Scope)
        ensures
            r == Scope(0),
            self.fns().valid(r),
    {
        self.functions.root_scope()
    }

    /// What the program printed.
    pub fn output(&self) -> (r: &String)
        ensures
            r@ == self.out(),
    {
        &self.output
    }

    /// The text read of every stream, by name.
    pub fn sources(&self) -> (r: &Vec<(String, String)>)
        ensures
            r@ == self.texts(),
    {
        &self.sources
    }

    /// Takes the topmost value.
    fn pop_any(&mut self) -> (r: Result<Any, EvalError>)
        ensures
            r == cast1(old(self).values(), Type::Any),
            final(self).values() == after_pop1(old(self).values()),
            final(self).same_but_stack(&*old(self)),
            final(self).bases() == clamp_bases(old(self).bases(), down_to(old(self).values().len() as int, 1)),
    {
        match self.stack.pop() {
            Ok(v) => Ok(v),
            Err(e) => Err(EvalError::Stack(e)),
        }
    }

    /// Takes the topmost value and checks its type.
    fn pop_typed(&mut self, t: Type) -> (r: Result<Any, EvalError>)
        ensures
            r == cast1(old(self).values(), t),
            final(self).values() == after_pop1(old(self).values()),
            final(self).same_but_stack(&*old(self)),
            final(self).bases() == clamp_bases(old(self).bases(), down_to(old(self).values().len() as int, 1)),
    {
        let v = self.pop_any()?;
        if t.matches(&v.get_type()) {
            Ok(v)
        } else {
            Err(EvalError::Type(TypeError { expected: t, actual: v }))
        }
    }

    /// Takes the two topmost values and checks their types, the lower one
    /// first.
    fn pop2_typed(&mut self, ta: Type, tb: Type) -> (r: Result<(Any, Any), EvalError>)
        ensures
            r == cast2(old(self).values(), ta, tb),
            final(self).values() == after_pop2(old(self).values()),
            final(self).same_but_stack(&*old(self)),
            final(self).bases() == clamp_bases(old(self).bases(), down_to(old(self).values().len() as int, 2)),
    {
        let (a, b) = match self.stack.pop2() {
            Ok(p) => p,
            Err(e) => {
                return Err(EvalError::Stack(e));
            },
        };
        if !ta.matches(&a.get_type()) {
            return Err(EvalError::Type(TypeError { expected: ta, actual: a }));
        }
        if !tb.matches(&b.get_type()) {
            return Err(EvalError::Type(TypeError { expected: tb, actual: b }));
        }
        Ok((a, b))
    }

    /// `print`: takes a value and prints it.
    fn builtin_print(&mut self) -> (r: Result<(), EvalError>)
        ensures
            old(self).values().len() == 0 ==> r == Err::<(), EvalError>(EvalError::Stack(stack::Error::StackEmpty))
                && final(self).out() == old(self).out(),
            old(self).values().len() > 0 ==> r is Ok && final(self).out() == old(self).out() + display(
                old(self).values().last().kind,
            ),
            final(self).values() == after_pop1(old(self).values()),
            final(self).fns() == old(self).fns(),
            final(self).frames() == old(self).frames(),
            final(self).modules() == old(self).modules(),
            final(self).texts() == old(self).texts(),
            final(self).limit() == old(self).limit(),
            final(self).bases() == clamp_bases(old(self).bases(), down_to(old(self).values().len() as int, 1)),
    {
        let v = self.pop_any()?;
        v.kind.write_display(&mut self.output);
        Ok(())
    }

    /// `fail`: fails.
    fn builtin_fail(&mut self) -> (r: Result<(), EvalError>)
        ensures
            r == Err::<(), EvalError>(EvalError::Failure),
            *final(self) == *old(self),
    {
        Err(EvalError::Failure)
    }

    /// `drop`: takes a value.
    fn builtin_drop(&mut self) -> (r: Result<(), EvalError>)
        ensures
            old(self).values().len() == 0 ==> r == Err::<(), EvalError>(EvalError::Stack(stack::Error::StackEmpty)),
            old(self).values().len() > 0 ==> r is Ok,
            final(self).values() == after_pop1(old(self).values()),
            final(self).same_but_stack(&*old(self)),
            final(self).bases() == clamp_bases(old(self).bases(), down_to(old(self).values().len() as int, 1)),
    {
        self.pop_any()?;
        Ok(())
    }

    /// `swap`: exchanges the two topmost values.
    fn builtin_swap(&mut self) -> (r: Result<(), EvalError>)
        ensures
            old(self).values().len() < 2 ==> r == Err::<(), EvalError>(EvalError::Stack(stack::Error::StackEmpty))
                && final(self).values() == Seq::<Any>::empty(),
            old(self).values().len() >= 2 ==> r is Ok && final(self).values() == after_pop2(
                old(self).values(),
            ).push(old(self).values().last()).push(old(self).values()[old(self).values().len() - 2]),
            final(self).same_but_stack(&*old(self)),
            final(self).bases() == clamp_bases(old(self).bases(), down_to(old(self).values().len() as int, 2)),
    {
        let (a, b) = self.pop2_typed(Type::Any, Type::Any)?;
        self.stack.push2(b, a);
        Ok(())
    }

    /// The span of the word whose function is running, merged with `span`.
    fn operator_span(&self, span: &Option<Span>) -> (r: Option<Span>)
        requires
            self.frames().len() > 0,
        ensures
            r == opt_span_merge(self.frames().last().span, *span),
    {
        let op = clone_span(&self.call_stack.operator().span);
        merge_opt(op, clone_span(span))
    }

    /// `clone`: copies the topmost value; both copies cover the word's span
    /// too.
    fn builtin_clone(&mut self) -> (r: Result<(), EvalError>)
        requires
            old(self).frames().len() > 0,
        ensures
            old(self).values().len() == 0 ==> r == Err::<(), EvalError>(EvalError::Stack(stack::Error::StackEmpty))
                && final(self).values() == old(self).values(),
            old(self).values().len() > 0 ==> r is Ok && {
                let v = old(self).values().last();
                let c = Any { kind: v.kind, span: opt_span_merge(old(self).frames().last().span, v.span) };
                final(self).values() == old(self).values().drop_last().push(c).push(c)
            },
            final(self).same_but_stack(&*old(self)),
            final(self).bases() == clamp_bases(old(self).bases(), down_to(old(self).values().len() as int, 1)),
    {
        let mut v = self.pop_any()?;
        v.span = self.operator_span(&v.span);
        let c = v.clone();
        self.stack.push2(c, v);
        Ok(())
    }

    /// `not`: negates a boolean.
    fn builtin_not(&mut self) -> (r: Result<(), EvalError>)
        ensures
            cast1(old(self).values(), Type::Bool) matches Err(e) ==> r == Err::<(), EvalError>(e)
                && final(self).values() == after_pop1(old(self).values()),
            cast1(old(self).values(), Type::Bool) matches Ok(v) ==> r is Ok && final(self).values()
                == old(self).values().drop_last().push(Any { kind: Kind::Bool(!(v.kind->Bool_0)), span: v.span }),
            final(self).same_but_stack(&*old(self)),
            final(self).bases() == clamp_bases(old(self).bases(), down_to(old(self).values().len() as int, 1)),
    {
        let v = self.pop_typed(Type::Bool)?;
        let b = match v.kind {
            Kind::Bool(b) => b,
            _ => false,
        };
        self.stack.push(Any { kind: Kind::Bool(!b), span: v.span });
        Ok(())
    }

    /// `=`: compares the data of two values.
    fn builtin_eq(&mut self) -> (r: Result<(), EvalError>)
        ensures
            old(self).values().len() < 2 ==> r == Err::<(), EvalError>(EvalError::Stack(stack::Error::StackEmpty))
                && final(self).values() == Seq::<Any>::empty(),
            old(self).values().len() >= 2 ==> {
                let s = old(self).values();
                let a = s[s.len() - 2];
                let b = s.last();
                match kind_eq(a.kind, b.kind) {
                    None => r == Err::<(), EvalError>(EvalError::Incomparable) && final(self).values()
                        == after_pop2(s),
                    Some(x) => r is Ok && final(self).values() == after_pop2(s).push(
                        Any { kind: Kind::Bool(x), span: opt_span_merge(a.span, b.span) },
                    ),
                }
            },
            final(self).same_but_stack(&*old(self)),
            final(self).bases() == clamp_bases(old(self).bases(), down_to(old(self).values().len() as int, 2)),
    {
        let (a, b) = self.pop2_typed(Type::Any, Type::Any)?;
        match a.kind.equals(&b.kind) {
            None => Err(EvalError::Incomparable),
            Some(x) => {
                let span = merge_opt(a.span, b.span);
                self.stack.push(Any { kind: Kind::Bool(x), span });
                Ok(())
            },
        }
    }

    /// `+`, `-`, `*`, `/` and `>` on numbers.
    fn builtin_number(&mut self, op: Builtin) -> (r: Result<(), EvalError>)
        requires
            op is AddN || op is SubN || op is MulN || op is DivN || op is GtN,
        ensures
            cast2(old(self).values(), Type::Number, Type::Number) matches Err(e) ==> r == Err::<(), EvalError>(e)
                && final(self).values() == after_pop2(old(self).values()),
            cast2(old(self).values(), Type::Number, Type::Number) matches Ok((a, b)) ==> match number_result(
                op,
                a.kind->Number_0,
                b.kind->Number_0,
            ) {
                Some(k) => r is Ok && final(self).values() == after_pop2(old(self).values()).push(
                    Any { kind: k, span: opt_span_merge(a.span, b.span) },
                ),
                None => r == Err::<(), EvalError>(
                    if op is DivN { EvalError::DivisionByZero } else { EvalError::Overflow },
                ) && final(self).values() == after_pop2(old(self).values()),
            },
            final(self).same_but_stack(&*old(self)),
            final(self).bases() == clamp_bases(old(self).bases(), down_to(old(self).values().len() as int, 2)),
    {
        let (a, b) = self.pop2_typed(Type::Number, Type::Number)?;
        let x = match a.kind {
            Kind::Number(x) => x,
            _ => 0,
        };
        let y = match b.kind {
            Kind::Number(y) => y,
            _ => 0,
        };
        let kind = match op {
            Builtin::AddN => match x.checked_add(y) {
                Some(z) => Kind::Number(z),
                None => {
                    return Err(EvalError::Overflow);
                },
            },
            Builtin::SubN => match x.checked_sub(y) {
                Some(z) => Kind::Number(z),
                None => {
                    return Err(EvalError::Overflow);
                },
            },
            Builtin::MulN => match x.checked_mul(y) {
                Some(z) => Kind::Number(z),
                None => {
                    return Err(EvalError::Overflow);
                },
            },
            Builtin::DivN => {
                if y == 0 {
                    return Err(EvalError::DivisionByZero);
                }
                Kind::Number(x / y)
            },
            _ => Kind::Bool(x > y),
        };
        let span = merge_opt(a.span, b.span);
        self.stack.push(Any { kind, span });
        Ok(())
    }
}

impl Interpreter {
    /// A new scope named `list` below `scope`.
    fn list_scope(&mut self, scope: Scope) -> (r: Scope)
        requires
            old(self).fns().valid(scope),
        ensures
            r.0 == old(self).fns().scope_count(),
            final(self).fns().valid(r),
            final(self).fns().parent_of(r) == Some(scope),
            final(self).fns().extends(&old(self).fns()),
            final(self).fns().adds_scopes_to(&old(self).fns()),
            final(self).fns().scope_count() == old(self).fns().scope_count() + 1,
            final(self).values() == old(self).values(),
            final(self).bases() == old(self).bases(),
            final(self).frames() == old(self).frames(),
            final(self).out() == old(self).out(),
            final(self).modules() == old(self).modules(),
            final(self).texts() == old(self).texts(),
            final(self).limit() == old(self).limit(),
    {
        proof {
            reveal_strlit("list");
        }
        self.functions.new_scope(scope, str_to_string("list"))
    }

    /// `define`: defines a list under a symbol, without arguments, in the
    /// scope of the word.
    fn builtin_define(&mut self, scope: Scope) -> (r: Result<(), EvalError>)
        requires
            old(self).fns().valid(scope),
        ensures
            final(self).frames() == old(self).frames(),
            final(self).modules() == old(self).modules(),
            final(self).texts() == old(self).texts(),
            final(self).limit() == old(self).limit(),
            define_outcome(*old(self), *final(self), scope, r),
    {
        let (body, name) = self.pop2_typed(Type::List, Type::Symbol)?;
        self.define_in(scope, body, name)
    }

    /// Defines the list `body` under the symbol `name` in `scope`.
    fn define_in(&mut self, scope: Scope, body: Any, name: Any) -> (r: Result<(), EvalError>)
        requires
            old(self).fns().valid(scope),
            body.kind is List,
            name.kind is Symbol,
        ensures
            final(self).same_but_fns(&*old(self)),
            final(self).fns().extends(&old(self).fns()),
            ({
                let n = name.kind->Symbol_0@;
                &&& (r is Err <==> crate::functions::define_conflicts(old(self).fns().node_of(scope, n), Seq::empty()) is Some)
                &&& (r is Err ==> (r matches Err(EvalError::DefineFunction(e)) && e.name@ == n && final(self).fns() == old(self).fns()))
                &&& (r is Ok ==> forall|tys: Seq<Type>| #[trigger] final(self).fns().lookup_in(scope, n, tys)
                    == Some(Function::UserDefined { body: body.kind->List_0 }))
            }),
    {
        let l = match body.kind {
            Kind::List(l) => l,
            _ => ListInner::from_values(Vec::new(), scope),
        };
        let n = match name.kind {
            Kind::Symbol(n) => n,
            _ => String::new(),
        };
        let ghost n0 = n@;
        let ghost before = self.functions;
        let ghost body_list = l;
        let args: &[Type] = &[];
        proof {
            assert(args@ =~= Seq::<Type>::empty());
        }
        let r = self.functions.define(scope, n, args, Function::UserDefined { body: l });
        proof {
            crate::functions::law_extends_preorder(&before, &before, &self.functions);
            if r is Ok {
                assert forall|tys: Seq<Type>| #[trigger] self.functions.lookup_in(scope, n0, tys)
                    == Some(Function::UserDefined { body: body_list }) by {
                    assert(exact_match(args@, tys));
                }
            }
        }
        match r {
            Ok(()) => Ok(()),
            Err(e) => Err(EvalError::DefineFunction(e)),
        }
    }

    /// Only the functions differ.
    pub open spec fn same_but_fns(&self, earlier: &Self) -> bool {
        &&& self.values() == earlier.values()
        &&& self.out() == earlier.out()
        &&& self.frames() == earlier.frames()
        &&& self.modules() == earlier.modules()
        &&& self.texts() == earlier.texts()
        &&& self.limit() == earlier.limit()
    }

    /// `define` with a scope: defines a list under a symbol, without
    /// arguments, in the scope given.
    fn builtin_define_in_scope(&mut self) -> (r: Result<(), EvalError>)
        ensures
            final(self).frames() == old(self).frames(),
            final(self).modules() == old(self).modules(),
            final(self).texts() == old(self).texts(),
            final(self).limit() == old(self).limit(),
            define_in_scope_outcome(*old(self), *final(self), r),
    {
        let (a, b, c) = match self.stack.pop3() {
            Ok(t) => t,
            Err(e) => {
                return Err(EvalError::Stack(e));
            },
        };
        if !Type::List.matches(&a.get_type()) {
            return Err(EvalError::Type(TypeError { expected: Type::List, actual: a }));
        }
        if !Type::Symbol.matches(&b.get_type()) {
            return Err(EvalError::Type(TypeError { expected: Type::Symbol, actual: b }));
        }
        if !Type::Scope.matches(&c.get_type()) {
            return Err(EvalError::Type(TypeError { expected: Type::Scope, actual: c }));
        }
        let s = match c.kind {
            Kind::Scope(s) => s,
            _ => Scope(0),
        };
        if !self.functions.is_valid(s) {
            return Err(EvalError::InvalidScope);
        }
        self.define_in(s, a, b)
    }

    /// `caller`: pushes the scope of the function that called the running
    /// one.
    fn builtin_caller(&mut self) -> (r: Result<(), EvalError>)
        ensures
            final(self).same_but_stack(&*old(self)),
            caller_outcome(*old(self), *final(self), old(self).frames(), r),
    {
        let frame = match self.call_stack.caller() {
            Some(f) => f.clone(),
            None => {
                return Err(EvalError::Caller);
            },
        };
        self.stack.push(Any { kind: Kind::Scope(frame.scope), span: frame.span });
        Ok(())
    }

    /// `to_list`: makes a list of one word from a symbol.
    fn builtin_to_list(&mut self, scope: Scope) -> (r: Result<(), EvalError>)
        requires
            old(self).fns().valid(scope),
            old(self).frames().len() > 0,
        ensures
            final(self).frames() == old(self).frames(),
            final(self).modules() == old(self).modules(),
            final(self).texts() == old(self).texts(),
            final(self).limit() == old(self).limit(),
            to_list_outcome(*old(self), *final(self), scope, old(self).frames().last().span, r),
    {
        let sym = self.pop_typed(Type::Symbol)?;
        let list_span = self.operator_span(&sym.span);
        let word = match sym.kind {
            Kind::Symbol(w) => w,
            _ => String::new(),
        };
        let item = Any::new(Kind::Word(word), sym.span);
        let mut items: Vec<Any> = Vec::new();
        items.push(item);
        let s = self.list_scope(scope);
        let l = ListInner::from_values(items, s);
        self.stack.push(Any { kind: Kind::List(l), span: list_span });
        Ok(())
    }

    /// `wrap`: makes a list of one value.
    fn builtin_wrap(&mut self, scope: Scope) -> (r: Result<(), EvalError>)
        requires
            old(self).fns().valid(scope),
            old(self).frames().len() > 0,
        ensures
            final(self).frames() == old(self).frames(),
            final(self).modules() == old(self).modules(),
            final(self).texts() == old(self).texts(),
            final(self).limit() == old(self).limit(),
            wrap_outcome(*old(self), *final(self), scope, old(self).frames().last().span, r),
    {
        let v = self.pop_any()?;
        let span = self.operator_span(&v.span);
        let mut items: Vec<Any> = Vec::new();
        items.push(v);
        let s = self.list_scope(scope);
        let l = ListInner::from_values(items, s);
        self.stack.push(Any { kind: Kind::List(l), span });
        Ok(())
    }

    /// `unwrap`: pushes the items of a list.
    fn builtin_unwrap(&mut self) -> (r: Result<(), EvalError>)
        ensures
            cast1(old(self).values(), Type::List) matches Err(e) ==> r == Err::<(), EvalError>(e)
                && final(self).values() == after_pop1(old(self).values()),
            cast1(old(self).values(), Type::List) matches Ok(l) ==> r is Ok && final(self).values()
                == old(self).values().drop_last() + (l.kind->List_0).items@,
            final(self).same_but_stack(&*old(self)),
            final(self).bases() == clamp_bases(old(self).bases(), down_to(old(self).values().len() as int, 1)),
    {
        let l = self.pop_typed(Type::List)?;
        let items = match &l.kind {
            Kind::List(inner) => clone_items(&inner.items),
            _ => Vec::new(),
        };
        let ghost base = self.stack@;
        let n = items.len();
        let mut i: usize = 0;
        while i < n
            invariant
                n == items@.len(),
                i <= n,
                self.stack@ == base + items@.take(i as int),
                self.same_but_stack(&*old(self)),
                self.bases() == clamp_bases(old(self).bases(), down_to(old(self).values().len() as int, 1)),
            decreases n - i,
        {
            self.stack.push(items[i].clone());
            i = i + 1;
            proof {
                assert(base + items@.take(i as int) =~= (base + items@.take(i - 1)).push(items@[i - 1]));
            }
        }
        proof {
            assert(items@.take(n as int) =~= items@);
        }
        Ok(())
    }

    /// `prepend` and `append`: adds a value at the start or the end of a
    /// list.
    fn builtin_extend(&mut self, at_start: bool) -> (r: Result<(), EvalError>)
        requires
            old(self).frames().len() > 0,
        ensures
            final(self).same_but_stack(&*old(self)),
            extend_outcome(*old(self), *final(self), at_start, old(self).frames().last().span, r),
    {
        let (l, a) = self.pop2_typed(Type::List, Type::Any)?;
        let span0 = self.operator_span(&l.span);
        let span = merge_opt(span0, clone_span(&a.span));
        let inner = match l.kind {
            Kind::List(inner) => inner,
            _ => ListInner::from_values(Vec::new(), Scope(0)),
        };
        let mut items = clone_items(&inner.items);
        if at_start {
            items.insert(0, a);
        } else {
            items.push(a);
        }
        let ghost iv = items@;
        let new = ListInner::from_values(items, inner.scope);
        self.stack.push(Any { kind: Kind::List(new), span });
        proof {
            let vals = self.values();
            assert(vals.drop_last() == after_pop2(old(self).values()));
            assert(iv =~= (if at_start { seq![cast2(old(self).values(), Type::List, Type::Any)->Ok_0.1] + inner.items@ } else { inner.items@.push(cast2(old(self).values(), Type::List, Type::Any)->Ok_0.1) }));
        }
        Ok(())
    }

    /// `list`: makes a list of as many values as a number says, taken from
    /// the stack.
    fn builtin_list(&mut self, scope: Scope) -> (r: Result<(), EvalError>)
        requires
            old(self).fns().valid(scope),
        ensures
            final(self).frames() == old(self).frames(),
            final(self).modules() == old(self).modules(),
            final(self).texts() == old(self).texts(),
            final(self).limit() == old(self).limit(),
            list_outcome(*old(self), *final(self), scope, r),
    {
        let len = self.pop_typed(Type::Number)?;
        let n = match len.kind {
            Kind::Number(n) => n,
            _ => 0,
        };
        let ghost s = self.stack@;
        let ghost w = s.skip(s.len() - n as int);
        let mut items: Vec<Any> = Vec::new();
        let mut span = clone_span(&len.span);
        let mut i: u32 = 0;
        proof {
            if s.len() >= n {
                assert(w.take(n as int) =~= w);
            }
        }
        while i < n
            invariant
                cast1(old(self).values(), Type::Number) == Ok::<Any, EvalError>(len),
                s == old(self).values().drop_last(),
                n == len.kind->Number_0,
                w == s.skip(s.len() - n as int),
                i <= n,
                s.len() >= i,
                self.stack@ == s.take(s.len() - i),
                items@ == s.skip(s.len() - i),
                s.len() >= n ==> merge_down(len.span, w) == merge_down(span, w.take(n - i)),
                self.same_but_stack(&*old(self)),
                self.fns() == old(self).fns(),
            decreases n - i,
        {
            let item = match self.stack.pop() {
                Ok(v) => v,
                Err(e) => {
                    proof {
                        assert(self.stack@ =~= Seq::<Any>::empty());
                    }
                    return Err(EvalError::Stack(e));
                },
            };
            proof {
                if s.len() >= n {
                    assert(w.take(n - i).last() == item);
                    assert(w.take(n - i).drop_last() =~= w.take(n - i - 1));
                }
            }
            span = merge_opt(span, clone_span(&item.span));
            items.insert(0, item);
            i = i + 1;
            proof {
                assert(self.stack@ =~= s.take(s.len() - i));
                assert(items@ =~= s.skip(s.len() - i));
            }
        }
        proof {
            assert(s.skip(s.len() - n as int).take(0) =~= Seq::<Any>::empty());
        }
        let sc = self.list_scope(scope);
        let l = ListInner::from_values(items, sc);
        self.stack.push(Any { kind: Kind::List(l), span });
        Ok(())
    }
}

/// Each evaluation step evolves the interpreter; steps compose.
pub proof fn law_evolves_preorder(a: &Interpreter, b: &Interpreter, c: &Interpreter)
    ensures
        a.evolves_from(a),
        b.evolves_from(a) && c.evolves_from(b) ==> c.evolves_from(a),
{
    crate::functions::law_extends_preorder(&a.fns(), &b.fns(), &c.fns());
    crate::functions::law_extends_preorder(&a.fns(), &a.fns(), &a.fns());
    assert(a.out().is_prefix_of(a.out()));
    assert(a.texts().is_prefix_of(a.texts()));
    if b.evolves_from(a) && c.evolves_from(b) {
        assert(a.out().is_prefix_of(c.out())) by {
            assert forall|i: int| 0 <= i < a.out().len() implies a.out()[i] == c.out()[i] by {
                assert(a.out()[i] == b.out()[i]);
            }
        }
        assert(a.texts().is_prefix_of(c.texts())) by {
            assert forall|i: int| 0 <= i < a.texts().len() implies a.texts()[i] == c.texts()[i] by {
                assert(a.texts()[i] == b.texts()[i]);
            }
        }
    }
}

impl Interpreter {
    /// Evaluates a value in `scope`: a word calls the function that the scope
    /// resolves for it and the types on the stack; any other value is pushed.
    /// `fuel` bounds how deeply functions may nest.
    pub fn evaluate_value<H: Host>(&mut self, host: &mut H, scope: Scope, value: Any, fuel: u64) -> (r: Result<(), EvalError>)
        requires
            old(self).fns().valid(scope),
        ensures
            value_outcome(*old(self), *final(self), scope, value, fuel as nat, r),
            r is Ok ==> final(self).frames() == old(self).frames(),
        decreases fuel, 2int,
    {
        proof {
            law_evolves_preorder(&*self, &*self, &*self);
            self.stack.lemma_bases_within(self.values().len() as int);
        }
        let ghost gvalue = value;
        let Any { kind, span } = value;
        let word = match kind {
            Kind::Word(w) => w,
            _ => {
                self.stack.push(Any { kind, span });
                return Ok(());
            },
        };
        let ghost before = *self;
        self.call_stack.frames.push(StackFrame { scope, span });
        match self.functions.get(scope, &word, &self.stack) {
            Ok(f) => {
                match f {
                    Function::Builtin(b) => {
                        let ghost pushed = *self;
                        let result = self.call_builtin(host, b, scope, fuel);
                        let ghost ended = *self;
                        match result {
                            Ok(()) => {
                                self.call_stack.frames.pop();
                                proof {
                                    let u = result->Ok_0;
                                    assert(u == ());
                                    assert(self.frames() =~= old(self).frames());
                                    lemma_nested_outcomes_ignore_frames(
                                        pushed,
                                        ended,
                                        *old(self),
                                        *self,
                                        pushed.frames(),
                                        fuel as nat,
                                        result,
                                    );
                                }
                                return Ok(());
                            },
                            Err(e) => {
                                proof {
                                    lemma_nested_outcomes_ignore_frames(
                                        pushed,
                                        ended,
                                        *old(self),
                                        *self,
                                        pushed.frames(),
                                        fuel as nat,
                                        result,
                                    );
                                }
                                return Err(e);
                            },
                        }
                    },
                    Function::UserDefined { body } => {
                        if fuel == 0 {
                            return Err(EvalError::RecursionLimit);
                        }
                        let ghost pushed = *self;
                        let ghost gbody = body;
                        let result = self.evaluate_list(host, body, fuel - 1);
                        let ghost ended = *self;
                        proof {
                            assert(same_but_frames(pushed, *old(self)));
                            assert(list_evaluation(pushed, ended, gbody, (fuel - 1) as nat, result));
                        }
                        match result {
                            Ok(()) => {
                                self.call_stack.frames.pop();
                                proof {
                                    let u = result->Ok_0;
                                    assert(u == ());
                                    assert(self.frames() =~= old(self).frames());
                                    assert(call_frame(*old(self), pushed, ended, *self, scope, gvalue.span, result));
                                }
                                return Ok(());
                            },
                            Err(e) => {
                                proof {
                                    assert(call_frame(*old(self), pushed, ended, *self, scope, gvalue.span, result));
                                }
                                return Err(e);
                            },
                        }
                    },
                }
            },
            Err(GetError { candidates, scope: sname }) => {
                let stack = self.stack.clone();
                Err(EvalError::FunctionNotFound { name: word, stack, candidates, scope: sname })
            },
        }
    }

    /// Evaluates the items of a list, in the list's scope.
    pub fn evaluate_list<H: Host>(&mut self, host: &mut H, list: ListInner, fuel: u64) -> (r: Result<(), EvalError>)
        ensures
            final(self).evolves_from(&*old(self)),
            r is Ok ==> final(self).frames() == old(self).frames(),
            !old(self).fns().valid(list.scope) ==> r == Err::<(), EvalError>(EvalError::InvalidScope)
                && *final(self) == *old(self),
            old(self).fns().valid(list.scope) && (forall|j: int| 0 <= j < list.items@.len()
                ==> !(#[trigger] list.items@[j].kind is Word)) ==> r is Ok && final(self).values()
                == old(self).values() + list.items@,
            old(self).fns().valid(list.scope) ==> match simple_run(
                old(self).fns(),
                fuel as nat,
                list.scope,
                old(self).values(),
                old(self).out(),
                list.items@,
            ) {
                Some((r0, s0, o0)) => same_result(r, r0) && final(self).values() == s0 && final(self).fns()
                    == old(self).fns() && final(self).out() == o0 && final(self).bases() == clamp_bases(
                    old(self).bases(),
                    run_low(old(self).fns(), fuel as nat, list.scope, old(self).values(), old(self).out(), list.items@),
                ),
                None => true,
            },
            list_evaluation(*old(self), *final(self), list, fuel as nat, r),
        decreases fuel, 3int,
    {
        proof {
            law_evolves_preorder(&*self, &*self, &*self);
        }
        let scope = list.scope;
        if !self.functions.is_valid(scope) {
            return Err(EvalError::InvalidScope);
        }
        let items = clone_items(&list.items);
        let n = items.len();
        let mut i: usize = 0;
        let ghost mut states: Seq<Interpreter> = seq![*self];
        let ghost mut results: Seq<Result<(), EvalError>> = Seq::empty();
        proof {
            assert(items@.skip(0) =~= items@);
        }
        while i < n
            invariant
                n == items@.len(),
                i <= n,
                self.fns().valid(scope),
                old(self).fns().valid(list.scope),
                scope == list.scope,
                items@ == list.items@,
                (forall|j: int| 0 <= j < list.items@.len() ==> !(#[trigger] list.items@[j].kind is Word))
                    ==> self.values() == old(self).values() + items@.take(i as int),
                simple_run(old(self).fns(), fuel as nat, scope, old(self).values(), old(self).out(), items@) is Some ==> {
                    &&& self.fns() == old(self).fns()
                    &&& simple_run(old(self).fns(), fuel as nat, scope, self.values(), self.out(), items@.skip(i as int))
                        == simple_run(old(self).fns(), fuel as nat, scope, old(self).values(), old(self).out(), items@)
                    &&& clamp_bases(
                        self.bases(),
                        run_low(old(self).fns(), fuel as nat, scope, self.values(), self.out(), items@.skip(i as int)),
                    ) == clamp_bases(
                        old(self).bases(),
                        run_low(old(self).fns(), fuel as nat, scope, old(self).values(), old(self).out(), items@),
                    )
                },
                self.evolves_from(&*old(self)),
                self.frames() == old(self).frames(),
                items_trace(states, results, scope, items@, fuel as nat),
                states[0] == *old(self),
                states.last() == *self,
                results.len() == i,
                forall|j: int| 0 <= j < results.len() ==> #[trigger] results[j] == Ok::<(), EvalError>(()),
            decreases n - i,
        {
            let ghost mid = *self;
            let v = items[i].clone();
            proof {
                assert(items@.skip(i as int)[0] == items@[i as int]);
                assert(items@.skip(i as int).drop_first() =~= items@.skip(i + 1));
            }
            let result = self.evaluate_value(host, scope, v, fuel);
            proof {
                law_evolves_preorder(&*old(self), &mid, &*self);
                assert(items@.take(i + 1) =~= items@.take(i as int).push(items@[i as int]));
                lemma_items_trace_push(states, results, scope, items@, fuel as nat, *self, result);
                states = states.push(*self);
                results = results.push(result);
            }
            match result {
                Ok(()) => {
                    proof {
                        let u = results.last()->Ok_0;
                        assert(u == ());
                    }
                },
                Err(e) => {
                    proof {
                        lemma_list_evaluation_intro(*old(self), *self, list, fuel as nat, result, states, results);
                    }
                    return Err(e);
                },
            }
            i = i + 1;
        }
        proof {
            assert(items@.take(n as int) =~= items@);
            assert(items@.skip(n as int) =~= Seq::<Any>::empty());
            self.stack.lemma_bases_within(self.values().len() as int);
            if results.len() > 0 {
                assert(results[results.len() - 1] == Ok::<(), EvalError>(()));
            }
            lemma_list_evaluation_intro(*old(self), *self, list, fuel as nat, Ok(()), states, results);
        }
        Ok(())
    }

    /// Runs a builtin that only works on the stack.
    fn call_pure(&mut self, b: Builtin) -> (r: Result<(), EvalError>)
        requires
            old(self).frames().len() > 0,
            is_pure(b),
        ensures
            match pure_effect(b, old(self).values(), old(self).frames().last().span) {
                Some((r0, s0)) => same_result(r, r0) && final(self).values() == s0,
                None => false,
            },
            final(self).same_but_stack(&*old(self)),
            final(self).bases() == clamp_bases(old(self).bases(), down_to(old(self).values().len() as int, pops(b))),
    {
        match b {
            Builtin::Fail => {
                proof {
                    self.stack.lemma_bases_within(self.values().len() as int);
                }
                self.builtin_fail()
            },
            Builtin::Drop => self.builtin_drop(),
            Builtin::Swap => self.builtin_swap(),
            Builtin::Clone => self.builtin_clone(),
            Builtin::Not => self.builtin_not(),
            Builtin::Eq => self.builtin_eq(),
            Builtin::Unwrap => self.builtin_unwrap(),
            _ => self.builtin_number(b),
        }
    }

    /// Runs a builtin in `scope`.
    fn call_builtin<H: Host>(&mut self, host: &mut H, b: Builtin, scope: Scope, fuel: u64) -> (r: Result<(), EvalError>)
        requires
            old(self).fns().valid(scope),
            old(self).frames().len() > 0,
        ensures
            final(self).evolves_from(&*old(self)),
            r is Ok ==> final(self).frames() == old(self).frames(),
            match builtin_step(old(self).fns(), fuel as nat, b, old(self).values(), old(self).out(), old(self).frames().last().span) {
                Some((r0, s0, o0)) => same_result(r, r0) && final(self).values() == s0 && final(self).fns() == old(self).fns()
                    && final(self).out() == o0 && final(self).bases() == clamp_bases(
                    old(self).bases(),
                    builtin_low(old(self).fns(), fuel as nat, b, old(self).values(), old(self).out(), old(self).frames().last().span),
                ),
                None => true,
            },
            b is Define ==> define_outcome(*old(self), *final(self), scope, r),
            b is DefineS ==> define_in_scope_outcome(*old(self), *final(self), r),
            b is Caller ==> caller_outcome(*old(self), *final(self), old(self).frames(), r),
            b is ToList ==> to_list_outcome(*old(self), *final(self), scope, old(self).frames().last().span, r),
            b is Wrap ==> wrap_outcome(*old(self), *final(self), scope, old(self).frames().last().span, r),
            b is List ==> list_outcome(*old(self), *final(self), scope, r),
            b is Prepend ==> extend_outcome(*old(self), *final(self), true, old(self).frames().last().span, r),
            b is Append ==> extend_outcome(*old(self), *final(self), false, old(self).frames().last().span, r),
            b is Eval ==> eval_outcome(*old(self), *final(self), old(self).frames(), fuel as nat, scope, old(self).frames().last().span, r),
            b is Load ==> load_outcome(*old(self), *final(self), scope, r),
            b is MapEach ==> map_outcome(*old(self), *final(self), old(self).frames(), fuel as nat, old(self).frames().last().span, r),
            b is Dig ==> dig_outcome(*old(self), *final(self), old(self).frames(), fuel as nat, r),
            b is If ==> if_outcome(*old(self), *final(self), old(self).frames(), fuel as nat, r),
            b matches Builtin::Host(id) ==> host_outcome(*old(self), *final(self), id, old(self).frames().last().span),
        decreases fuel, 1int,
    {
        proof {
            law_evolves_preorder(&*self, &*self, &*self);
            assert(self.out().is_prefix_of(self.out()));
            lemma_pure(b, self.values(), self.frames().last().span);
        }
        let ghost before = *self;
        if builtin_is_pure(b) {
            let r = self.call_pure(b);
            proof {
                crate::functions::law_extends_preorder(&before.fns(), &before.fns(), &self.fns());
            }
            return r;
        }
        let r = match b {
            Builtin::Print => self.builtin_print(),
            Builtin::Define => self.builtin_define(scope),
            Builtin::DefineS => self.builtin_define_in_scope(),
            Builtin::Caller => self.builtin_caller(),
            Builtin::Eval => self.builtin_eval(host, scope, fuel),
            Builtin::Load => self.builtin_load(host, scope),
            Builtin::ToList => self.builtin_to_list(scope),
            Builtin::Dig => self.builtin_dig(host, fuel),
            Builtin::If => self.builtin_if(host, fuel),
            Builtin::List => self.builtin_list(scope),
            Builtin::MapEach => self.builtin_map(host, fuel),
            Builtin::Wrap => self.builtin_wrap(scope),
            Builtin::Prepend => self.builtin_extend(true),
            Builtin::Append => self.builtin_extend(false),
            Builtin::Host(id) => {
                let span = clone_span(&self.call_stack.operator().span);
                self.host_calls = Ghost(self.host_calls@.push((id, self.stack@, span)));
                host.call(id, &mut self.stack, span)
            },
            _ => Err(EvalError::Failure),
        };
        proof {
            crate::functions::law_extends_preorder(&before.fns(), &before.fns(), &self.fns());
            assert(before.out().is_prefix_of(self.out())) by {
                assert forall|i: int| 0 <= i < before.out().len() implies before.out()[i] == self.out()[i] by {}
            }
        }
        r
    }

    /// `eval`: evaluates a list on a stack of its own and pushes a list of
    /// the values it left.
    fn builtin_eval<H: Host>(&mut self, host: &mut H, scope: Scope, fuel: u64) -> (r: Result<(), EvalError>)
        requires
            old(self).fns().valid(scope),
            old(self).frames().len() > 0,
        ensures
            final(self).evolves_from(&*old(self)),
            r is Ok ==> final(self).frames() == old(self).frames(),
            eval_outcome(*old(self), *final(self), old(self).frames(), fuel as nat, scope, old(self).frames().last().span, r),
        decreases fuel, 0int,
    {
        proof {
            law_evolves_preorder(&*self, &*self, &*self);
        }
        let ghost s0 = after_pop1(old(self).values());
        let list = self.pop_typed(Type::List)?;
        let span = self.operator_span(&list.span);
        let inner = match list.kind {
            Kind::List(l) => l,
            _ => ListInner::from_values(Vec::new(), scope),
        };
        if fuel == 0 {
            return Err(EvalError::RecursionLimit);
        }
        let ghost mid = *self;
        self.stack.create_substack();
        proof {
            law_evolves_preorder(&*old(self), &mid, &*self);
        }
        let ghost mid2 = *self;
        let ghost glist = list;
        let result = self.evaluate_list(host, inner, fuel - 1);
        proof {
            law_evolves_preorder(&*old(self), &mid2, &*self);
        }
        match result {
            Ok(()) => {},
            Err(e) => {
                proof {
                    assert(eval_frame(*old(self), mid2, *self, *self, glist, old(self).frames(), scope, old(self).frames().last().span, result));
                }
                return Err(e);
            },
        }
        let ghost mid3 = *self;
        let items = self.stack.destroy_substack();
        proof {
            let m = mid3.stack.top_base();
            mid3.stack.lemma_bases_within(mid3.values().len() as int);
            assert(0 <= m <= mid3.values().len());
            assert(self.values() =~= mid3.values().take(m));
            assert(items@ =~= mid3.values().skip(m));
        }
        let ghost mid4 = *self;
        let sc = self.list_scope(scope);
        proof {
            law_evolves_preorder(&*old(self), &mid4, &*self);
        }
        let l = ListInner::from_values(items, sc);
        self.stack.push(Any { kind: Kind::List(l), span });
        proof {
            let u = result->Ok_0;
            assert(u == ());
            assert(eval_frame(*old(self), mid2, mid3, *self, glist, old(self).frames(), scope, old(self).frames().last().span, result));
        }
        Ok(())
    }

    /// `dig`: evaluates a list below the topmost value, then puts the value
    /// back on top.
    fn builtin_dig<H: Host>(&mut self, host: &mut H, fuel: u64) -> (r: Result<(), EvalError>)
        ensures
            final(self).evolves_from(&*old(self)),
            r is Ok ==> final(self).frames() == old(self).frames(),
            cast2(old(self).values(), Type::Any, Type::List) matches Err(e) ==> r == Err::<(), EvalError>(e)
                && final(self).values() == after_pop2(old(self).values()),
            match builtin_step(old(self).fns(), fuel as nat, Builtin::Dig, old(self).values(), old(self).out(), None) {
                Some((r0, s0, o0)) => same_result(r, r0) && final(self).values() == s0 && final(self).fns() == old(self).fns()
                    && final(self).out() == o0 && final(self).bases() == clamp_bases(
                    old(self).bases(),
                    builtin_low(old(self).fns(), fuel as nat, Builtin::Dig, old(self).values(), old(self).out(), None),
                ),
                None => true,
            },
            dig_outcome(*old(self), *final(self), old(self).frames(), fuel as nat, r),
        decreases fuel, 0int,
    {
        proof {
            law_evolves_preorder(&*self, &*self, &*self);
        }
        let (item, f) = self.pop2_typed(Type::Any, Type::List)?;
        let inner = match f.kind {
            Kind::List(l) => l,
            _ => ListInner::from_values(Vec::new(), Scope(0)),
        };
        if fuel == 0 {
            return Err(EvalError::RecursionLimit);
        }
        let ghost mid = *self;
        let ghost gitem = item;
        let result = self.evaluate_list(host, inner, fuel - 1);
        let ghost end = *self;
        proof {
            law_evolves_preorder(&*old(self), &mid, &*self);
        }
        match result {
            Ok(()) => {},
            Err(e) => {
                proof {
                    assert(dig_frame(*old(self), mid, end, *self, gitem, old(self).frames(), result));
                }
                return Err(e);
            },
        }
        self.stack.push(item);
        proof {
            let u = result->Ok_0;
            assert(u == ());
            assert(dig_frame(*old(self), mid, end, *self, gitem, old(self).frames(), result));
        }
        Ok(())
    }

    /// `if`: evaluates the condition list; where it leaves `true`, evaluates
    /// the other list.
    fn builtin_if<H: Host>(&mut self, host: &mut H, fuel: u64) -> (r: Result<(), EvalError>)
        ensures
            final(self).evolves_from(&*old(self)),
            r is Ok ==> final(self).frames() == old(self).frames(),
            cast2(old(self).values(), Type::List, Type::List) matches Err(e) ==> r == Err::<(), EvalError>(e)
                && final(self).values() == after_pop2(old(self).values()),
            match builtin_step(old(self).fns(), fuel as nat, Builtin::If, old(self).values(), old(self).out(), None) {
                Some((r0, s0, o0)) => same_result(r, r0) && final(self).values() == s0 && final(self).fns() == old(self).fns()
                    && final(self).out() == o0 && final(self).bases() == clamp_bases(
                    old(self).bases(),
                    builtin_low(old(self).fns(), fuel as nat, Builtin::If, old(self).values(), old(self).out(), None),
                ),
                None => true,
            },
            if_outcome(*old(self), *final(self), old(self).frames(), fuel as nat, r),
        decreases fuel, 0int,
    {
        proof {
            law_evolves_preorder(&*self, &*self, &*self);
        }
        let (function, condition) = self.pop2_typed(Type::List, Type::List)?;
        let f = match function.kind {
            Kind::List(l) => l,
            _ => ListInner::from_values(Vec::new(), Scope(0)),
        };
        let c = match condition.kind {
            Kind::List(l) => l,
            _ => ListInner::from_values(Vec::new(), Scope(0)),
        };
        if fuel == 0 {
            return Err(EvalError::RecursionLimit);
        }
        let ghost mid = *self;
        let result = self.evaluate_list(host, c, fuel - 1);
        let ghost end1 = *self;
        let ghost r1 = result;
        proof {
            law_evolves_preorder(&*old(self), &mid, &*self);
        }
        match result {
            Ok(()) => {},
            Err(e) => {
                proof {
                    assert(if_frame(*old(self), mid, end1, end1, end1, *self, old(self).frames(), r1, result));
                }
                return Err(e);
            },
        }
        let ghost mid2 = *self;
        let cond = match self.pop_typed(Type::Bool) {
            Ok(c) => c,
            Err(e) => {
                proof {
                    assert(if_frame(*old(self), mid, end1, *self, end1, *self, old(self).frames(), r1, Err(e)));
                }
                return Err(e);
            },
        };
        let ghost popped2 = *self;
        proof {
            law_evolves_preorder(&*old(self), &mid2, &*self);
        }
        let yes = match cond.kind {
            Kind::Bool(b) => b,
            _ => false,
        };
        if yes {
            let result = self.evaluate_list(host, f, fuel - 1);
            let ghost end2 = *self;
            proof {
                law_evolves_preorder(&*old(self), &popped2, &*self);
            }
            match result {
                Ok(()) => {
                    proof {
                        let u = result->Ok_0;
                        assert(u == ());
                        assert(if_frame(*old(self), mid, end1, popped2, end2, *self, old(self).frames(), r1, result));
                    }
                },
                Err(e) => {
                    proof {
                        assert(if_frame(*old(self), mid, end1, popped2, end2, *self, old(self).frames(), r1, result));
                    }
                    return Err(e);
                },
            }
        } else {
            proof {
                assert(if_frame(*old(self), mid, end1, popped2, popped2, *self, old(self).frames(), r1, Ok(())));
            }
        }
        Ok(())
    }

    /// `map`: evaluates a list once for every item of another, each time with
    /// the item pushed, on a stack of its own; pushes a list of the values
    /// left.
    fn builtin_map<H: Host>(&mut self, host: &mut H, fuel: u64) -> (r: Result<(), EvalError>)
        requires
            old(self).frames().len() > 0,
        ensures
            final(self).evolves_from(&*old(self)),
            r is Ok ==> final(self).frames() == old(self).frames(),
            map_outcome(*old(self), *final(self), old(self).frames(), fuel as nat, old(self).frames().last().span, r),
        decreases fuel, 0int,
    {
        proof {
            law_evolves_preorder(&*self, &*self, &*self);
        }
        let (list, function) = self.pop2_typed(Type::List, Type::List)?;
        let span0 = self.operator_span(&list.span);
        let span = merge_opt(span0, clone_span(&function.span));
        let l = match list.kind {
            Kind::List(l) => l,
            _ => ListInner::from_values(Vec::new(), Scope(0)),
        };
        let f = match function.kind {
            Kind::List(f) => f,
            _ => ListInner::from_values(Vec::new(), Scope(0)),
        };
        if fuel == 0 {
            return Err(EvalError::RecursionLimit);
        }
        let ghost f0 = self.fns();
        let ghost sb = self.values();
        let ghost ob = self.out();
        let ghost fl = (fuel - 1) as nat;
        let ghost whole = map_run(f0, fl, f, sb, ob, l.items@);
        let ghost low = map_low(f0, fl, f, sb, ob, l.items@);
        let ghost b1 = self.bases().push(sb.len() as int);
        let ghost glist = list;
        let ghost gfunction = function;
        self.stack.create_substack();
        let ghost mid_g = *self;
        let ghost mut starts: Seq<Interpreter> = Seq::empty();
        let ghost mut ends: Seq<Interpreter> = Seq::empty();
        let ghost mut results: Seq<Result<(), EvalError>> = Seq::empty();
        let n = l.items.len();
        let mut i: usize = 0;
        proof {
            assert(l.items@.skip(0) =~= l.items@);
            self.stack.lemma_bases_within(self.values().len() as int);
        }
        while i < n
            invariant
                n == l.items@.len(),
                i <= n,
                fuel > 0,
                fl == (fuel - 1) as nat,
                self.evolves_from(&*old(self)),
                self.frames() == old(self).frames(),
                cast2(old(self).values(), Type::List, Type::List) is Ok,
                whole == map_run(f0, fl, f, sb, ob, l.items@),
                low == map_low(f0, fl, f, sb, ob, l.items@),
                f0 == old(self).fns(),
                ob == old(self).out(),
                sb == after_pop2(old(self).values()),
                cast2(old(self).values(), Type::List, Type::List) matches Ok((lg, fg)) && lg.kind->List_0 == l
                    && fg.kind->List_0 == f,
                cast2(old(self).values(), Type::List, Type::List) == Ok::<(Any, Any), EvalError>((glist, gfunction)),
                map_trace(mid_g, starts, ends, results, l.items@, f, old(self).frames(), fl),
                results.len() == i,
                forall|j: int| 0 <= j < results.len() ==> #[trigger] results[j] == Ok::<(), EvalError>(()),
                (if i == 0 { mid_g } else { ends.last() }) == *self,
                mid_g.frames() == old(self).frames(),
                mid_g.values() == sb,
                mid_g.bases() == b1,
                b1 == clamp_bases(old(self).bases(), sb.len() as int).push(sb.len() as int),
                mid_g.fns() == old(self).fns(),
                mid_g.out() == old(self).out(),
                mid_g.modules() == old(self).modules(),
                mid_g.texts() == old(self).texts(),
                mid_g.limit() == old(self).limit(),
                whole is Some ==> {
                    &&& self.fns() == f0
                    &&& map_run(f0, fl, f, self.values(), self.out(), l.items@.skip(i as int)) == whole
                    &&& clamp_bases(self.bases(), map_low(f0, fl, f, self.values(), self.out(), l.items@.skip(i as int)))
                        == clamp_bases(b1, low)
                },
            decreases n - i,
        {
            let ghost before_item = *self;
            proof {
                assert(l.items@.skip(i as int)[0] == l.items@[i as int]);
                assert(l.items@.skip(i as int).drop_first() =~= l.items@.skip(i + 1));
            }
            let item = l.items[i].clone();
            self.stack.push(item);
            let ghost mid = *self;
            let result = self.evaluate_list(host, f.clone(), fuel - 1);
            let ghost end_i = *self;
            proof {
                lemma_map_trace_push(mid_g, starts, ends, results, l.items@, f, old(self).frames(), fl, mid, end_i, result);
                starts = starts.push(mid);
                ends = ends.push(end_i);
                results = results.push(result);
            }
            proof {
                law_evolves_preorder(&*old(self), &mid, &*self);
                if whole is Some {
                    let vi = before_item.values();
                    let oi = before_item.out();
                    let bi = before_item.bases();
                    let rest = l.items@.skip(i + 1);
                    let l1 = run_low(f0, fl, f.scope, vi.push(l.items@[i as int]), oi, f.items@);
                    before_item.stack.lemma_bases_within(vi.len() as int);
                    assert(mid.values() == vi.push(l.items@[i as int]));
                    assert(mid.bases() == bi);
                    let run1 = simple_run(f0, fl, f.scope, vi.push(l.items@[i as int]), oi, f.items@);
                    assert(run1 is Some);
                    if result is Ok {
                        let ml = map_low(f0, fl, f, self.values(), self.out(), rest);
                        lemma_clamp_twice(bi, l1, ml);
                        lemma_clamp_twice(bi, vi.len() as int, lesser(l1, ml));
                    }
                }
            }
            match result {
                Ok(()) => {},
                Err(e) => {
                    proof {
                        if whole is Some {
                            let vi = before_item.values();
                            let oi = before_item.out();
                            let run1 = simple_run(f0, fl, f.scope, vi.push(l.items@[i as int]), oi, f.items@);
                            assert(map_run(f0, fl, f, vi, oi, l.items@.skip(i as int)) == run1);
                            let r1 = run1.unwrap().0;
                            assert(r1 == Err::<(), EvalError>(e));
                            assert(whole == run1);
                            assert(self.values() == run1.unwrap().1);
                            assert(self.out() == run1.unwrap().2);
                            assert(self.fns() == f0);
                        }
                        assert(map_frame(*old(self), mid_g, starts, ends, results, *self, glist, gfunction, old(self).frames(), old(self).frames().last().span, result));
                    }
                    return Err(e);
                },
            }
            i = i + 1;
        }
        proof {
            assert(l.items@.skip(n as int) =~= Seq::<Any>::empty());
            self.stack.lemma_bases_within(self.values().len() as int);
        }
        let ghost mid3 = *self;
        let result = self.stack.destroy_substack();
        proof {
            let m = mid3.stack.top_base();
            mid3.stack.lemma_bases_within(mid3.values().len() as int);
            assert(self.values() =~= mid3.values().take(m));
            assert(result@ =~= mid3.values().skip(m));
        }
        if !self.functions.is_valid(l.scope) {
            proof {
                if results.len() > 0 {
                    assert(results.last() == Ok::<(), EvalError>(()));
                }
                assert(map_frame(*old(self), mid_g, starts, ends, results, *self, glist, gfunction, old(self).frames(), old(self).frames().last().span, Err(EvalError::InvalidScope)));
            }
            return Err(EvalError::InvalidScope);
        }
        let ghost mid2 = *self;
        let sc = self.list_scope(l.scope);
        proof {
            law_evolves_preorder(&*old(self), &mid2, &*self);
        }
        let new = ListInner::from_values(result, sc);
        self.stack.push(Any { kind: Kind::List(new), span });
        proof {
            if results.len() > 0 {
                assert(results.last() == Ok::<(), EvalError>(()));
            }
            assert(map_frame(*old(self), mid_g, starts, ends, results, *self, glist, gfunction, old(self).frames(), old(self).frames().last().span, Ok(())));
        }
        Ok(())
    }

    /// `load`: pushes the module named by a string, as a list of its
    /// expressions evaluated in a new scope below `scope`.
    fn builtin_load<H: Host>(&mut self, host: &mut H, scope: Scope) -> (r: Result<(), EvalError>)
        requires
            old(self).fns().valid(scope),
        ensures
            final(self).evolves_from(&*old(self)),
            final(self).frames() == old(self).frames(),
            load_outcome(*old(self), *final(self), scope, r),
    {
        proof {
            law_evolves_preorder(&*self, &*self, &*self);
        }
        let path = self.pop_typed(Type::String)?;
        let name = match path.kind {
            Kind::String(s) => s,
            _ => String::new(),
        };
        let ghost mid = *self;
        let result = self.load(host, name, scope);
        proof {
            law_evolves_preorder(&*old(self), &mid, &*self);
        }
        let list = match result {
            Ok(l) => l,
            Err(e) => {
                proof {
                    assert(self.values() == after_pop1(old(self).values()));
                }
                return Err(e);
            },
        };
        let ghost mid2 = *self;
        self.stack.push(list);
        proof {
            assert(self.values().drop_last() == mid2.values());
            assert(self.values().last() == list);
        }
        Ok(())
    }

    /// The index of the first module named `name`, if there is one.
    fn find_module(&self, name: &String) -> (r: Option<usize>)
        ensures
            r matches Some(i) ==> i < self.modules().len() && self.modules()[i as int].0@ == name@
                && forall|j: int| 0 <= j < i ==> (#[trigger] self.modules()[j]).0@ != name@,
            r is None ==> !exists|i: int| 0 <= i < self.modules().len() && (#[trigger] self.modules()[i]).0@ == name@,
    {
        let n = self.streams.len();
        let mut i: usize = 0;
        while i < n
            invariant
                n == self.modules().len(),
                i <= n,
                forall|j: int| 0 <= j < i ==> (#[trigger] self.modules()[j]).0@ != name@,
            decreases n - i,
        {
            if self.streams[i].0 == *name {
                return Some(i);
            }
            i = i + 1;
        }
        None
    }

    /// The module named `name` as a list of its expressions, evaluated in a
    /// new scope below `scope`; the list covers the first expression to the
    /// last.
    pub fn load<H: Host>(&mut self, host: &H, name: String, scope: Scope) -> (r: Result<Any, EvalError>)
        requires
            old(self).fns().valid(scope),
        ensures
            final(self).evolves_from(&*old(self)),
            final(self).values() == old(self).values(),
            final(self).frames() == old(self).frames(),
            (r matches Err(EvalError::ModuleNotFound(_))) <==> !exists|i: int|
                0 <= i < old(self).modules().len() && (#[trigger] old(self).modules()[i]).0@ == name@,
            r matches Err(EvalError::ModuleNotFound(n)) ==> n@ == name@,
            r matches Ok(v) ==> v.kind is List && (v.kind->List_0).scope.0 == old(self).fns().scope_count()
                && final(self).fns().parent_of((v.kind->List_0).scope) == Some(scope),
            r is Err ==> (r matches Err(EvalError::ModuleNotFound(_)) || r matches Err(EvalError::Parser(_))),
            forall|k: int| #![trigger old(self).modules()[k]] 0 <= k < old(self).modules().len() && old(self).modules()[k].0@ == name@
                && (forall|j: int| 0 <= j < k ==> (#[trigger] old(self).modules()[j]).0@ != name@) ==> {
                let parsed = parse_all_spec(name, initial_state(old(self).modules()[k].1@), Seq::empty()).0;
                &&& (r is Ok <==> parsed is Ok)
                &&& (r matches Err(EvalError::Parser(e)) ==> error_matches(e, parsed->Err_0))
                &&& (r matches Ok(v) ==> module_list(v, parsed->Ok_0, (v.kind->List_0).scope))
            },
    {
        proof {
            law_evolves_preorder(&*self, &*self, &*self);
        }
        let module_scope = self.functions.new_scope(scope, name.clone());
        proof {
            assert(self.out().is_prefix_of(self.out()));
        }
        let found = match self.find_module(&name) {
            Some(i) => i,
            None => {
                proof {
                    assert(self.modules() == old(self).modules());
                }
                return Err(EvalError::ModuleNotFound(name));
            },
        };
        proof {
            assert(self.modules() == old(self).modules());
            assert(old(self).modules()[found as int].0@ == name@);
        }
        let bytes = self.streams[found].1.clone();
        let ghost goal = parse_all_spec(name, initial_state(bytes@), Seq::empty());
        let mut pipeline = Pipeline::new(name.clone(), bytes);
        let mut source = String::new();
        let mut expressions: Vec<Expression> = Vec::new();
        let ghost mut views: Seq<ExprView> = Seq::empty();
        loop
            invariant_except_break
                goal == parse_all_spec(name, pipeline.parser.reader_state(), views),
            invariant
                self.evolves_from(&*old(self)),
                self.values() == old(self).values(),
                self.frames() == old(self).frames(),
                self.fns().valid(module_scope),
                module_scope.0 == old(self).fns().scope_count(),
                self.fns().parent_of(module_scope) == Some(scope),
                found < old(self).modules().len(),
                old(self).modules()[found as int].0@ == name@,
                forall|j: int| 0 <= j < found ==> (#[trigger] old(self).modules()[j]).0@ != name@,
                bytes@ == old(self).modules()[found as int].1@,
                pipeline.parser.stream_name() == name,
                goal == parse_all_spec(name, initial_state(bytes@), Seq::empty()),
                expressions@.len() == views.len(),
                forall|i: int| 0 <= i < views.len() ==> #[trigger] expr_matches(expressions@[i], views[i]),
            ensures
                goal.0 == Ok::<Seq<ExprView>, parser::ErrorView>(views),
            decreases pipeline.parser.reader_state().input.len() - pipeline.parser.reader_state().cursor,
        {
            pipeline.parser.position();
            let ghost rs = pipeline.parser.reader_state();
            proof {
                parser::lemma_parse_expression_moves(pipeline.parser.stream_name(), pipeline.parser.reader_state());
            }
            match pipeline.parser.next_expression(host, &mut source) {
                Ok(e) => {
                    proof {
                        views = views.push(parser::parse_expression_spec(name, rs).0->Ok_0);
                    }
                    expressions.push(e);
                    proof {
                        assert forall|i: int| 0 <= i < views.len() implies #[trigger] expr_matches(expressions@[i], views[i]) by {
                            if i < views.len() - 1 {
                                assert(expressions@[i] == parser::expr_at(expressions@, i));
                            }
                        }
                    }
                },
                Err(parser::Error::EndOfStream) => {
                    break;
                },
                Err(e) => {
                    let ghost before_push = *self;
                    self.sources.push((name, source));
                    proof {
                        assert(before_push.texts().is_prefix_of(self.texts()));
                        law_evolves_preorder(&*old(self), &before_push, &*self);
                    }
                    return Err(EvalError::Parser(e));
                },
            }
        }
        let n = expressions.len();
        let start = if n > 0 { clone_span(&expressions[0].span) } else { None };
        let end = if n > 0 { clone_span(&expressions[n - 1].span) } else { None };
        let span = merge_opt(start, end);
        let ghost before_push = *self;
        self.sources.push((name, source));
        proof {
            assert(before_push.texts().is_prefix_of(self.texts()));
            assert(before_push.out().is_prefix_of(self.out()));
            crate::functions::law_extends_preorder(&before_push.fns(), &before_push.fns(), &before_push.fns());
            law_evolves_preorder(&*old(self), &before_push, &*self);
        }
        let ghost es = expressions@;
        let l = ListInner::from_expressions(expressions, module_scope);
        proof {
            assert(goal.0 == Ok::<Seq<ExprView>, parser::ErrorView>(views));
            if n > 0 {
                assert(expr_matches(es[0], views[0]));
                assert(expr_matches(es[n - 1], views[n - 1]));
            }
            assert(es.len() == views.len());
        }
        Ok(Any { kind: Kind::List(l), span })
    }

    /// Parses and evaluates the stream `name`, expression by expression, in
    /// `scope`; every list in it is evaluated in a scope of its own below.
    /// The text read is kept for error messages.
    pub fn evaluate_stream<H: Host>(&mut self, host: &mut H, scope: Scope, name: String, stream: Vec<u8>) -> (r: Result<(), Error>)
        requires
            old(self).fns().valid(scope),
        ensures
            final(self).evolves_from(&*old(self)),
            r is Ok ==> final(self).frames() == old(self).frames(),
            final(self).texts().len() > old(self).texts().len(),
            final(self).texts().last().0@ == name@,
            r is Ok ==> parse_all_spec(name, initial_state(stream@), Seq::empty()).0 is Ok,
            r matches Err(Error { kind: ErrorKind::Parser(e), .. }) ==> parse_all_spec(
                name,
                initial_state(stream@),
                Seq::empty(),
            ).0 matches Err(ev) && error_matches(e, ev),
            r is Ok ==> exists|vals: Seq<Any>, scopes: Seq<Scope>| {
                &&& #[trigger] values_fit_views(
                    vals,
                    parse_all_spec(name, initial_state(stream@), Seq::empty()).0->Ok_0,
                    scopes,
                )
                &&& (simple_run(old(self).fns(), old(self).limit() as nat, scope, old(self).values(), old(self).out(), vals) matches Some((r0, s0, o0)) ==> {
                    &&& r0 is Ok
                    &&& numbered_from(scopes, old(self).fns().scope_count())
                    &&& final(self).values() == s0
                    &&& final(self).out() == o0
                })
            },
            r matches Err(Error { kind: ErrorKind::Context(e), .. }) ==> exists|
                vals: Seq<Any>,
                scopes: Seq<Scope>,
                views: Seq<ExprView>,
                rest: crate::reader::ReaderState,
            |
                #![trigger values_fit_views(vals, views, scopes), parse_all_spec(name, rest, views)]
                {
                &&& parse_all_spec(name, initial_state(stream@), Seq::empty()) == parse_all_spec(name, rest, views)
                &&& values_fit_views(vals, views, scopes)
                &&& (simple_run(old(self).fns(), old(self).limit() as nat, scope, old(self).values(), old(self).out(), vals) matches Some((r0, s0, o0)) ==> {
                    &&& r0 == Err::<(), EvalError>(e)
                    &&& numbered_from(scopes, old(self).fns().scope_count())
                    &&& final(self).values() == s0
                    &&& final(self).out() == o0
                })
            },
            r is Ok ==> exists|
                states: Seq<Interpreter>,
                mids: Seq<Interpreter>,
                results: Seq<Result<(), EvalError>>,
                vals: Seq<Any>,
                scopes: Seq<Scope>,
            |
                #![trigger evaluation_trace(states, mids, results, scope, vals, scopes, old(self).limit() as nat)]
                {
                &&& values_fit_views(vals, parse_all_spec(name, initial_state(stream@), Seq::empty()).0->Ok_0, scopes)
                &&& evaluation_trace(states, mids, results, scope, vals, scopes, old(self).limit() as nat)
                &&& states[0] == *old(self)
                &&& forall|k: int| 0 <= k < results.len() ==> #[trigger] results[k] == Ok::<(), EvalError>(())
                &&& final(self).values() == states.last().values()
                &&& final(self).out() == states.last().out()
                &&& final(self).fns() == states.last().fns()
            },
            r matches Err(Error { kind: ErrorKind::Context(e), .. }) ==> exists|
                states: Seq<Interpreter>,
                mids: Seq<Interpreter>,
                results: Seq<Result<(), EvalError>>,
                vals: Seq<Any>,
                scopes: Seq<Scope>,
                views: Seq<ExprView>,
                rest: crate::reader::ReaderState,
            |
                #![trigger evaluation_trace(states, mids, results, scope, vals, scopes, old(self).limit() as nat), parse_all_spec(name, rest, views)]
                {
                &&& parse_all_spec(name, initial_state(stream@), Seq::empty()) == parse_all_spec(name, rest, views)
                &&& values_fit_views(vals, views, scopes)
                &&& evaluation_trace(states, mids, results, scope, vals, scopes, old(self).limit() as nat)
                &&& states[0] == *old(self)
                &&& results.len() > 0
                &&& results.last() == Err::<(), EvalError>(e)
                &&& forall|k: int| 0 <= k < results.len() - 1 ==> #[trigger] results[k] == Ok::<(), EvalError>(())
                &&& final(self).values() == states.last().values()
                &&& final(self).out() == states.last().out()
                &&& final(self).fns() == states.last().fns()
            },
    {
        proof {
            law_evolves_preorder(&*self, &*self, &*self);
        }
        let ghost goal = parse_all_spec(name, initial_state(stream@), Seq::empty());
        let ghost f0 = self.fns();
        let ghost s0 = self.values();
        let ghost o0 = self.out();
        let ghost fl = self.limit() as nat;
        let ghost c0 = self.fns().scope_count();
        let mut pipeline = Pipeline::new(name.clone(), stream);
        let mut source = String::new();
        let mut failure: Option<Error> = None;
        let ghost mut views: Seq<ExprView> = Seq::empty();
        let ghost mut vals: Seq<Any> = Seq::empty();
        let ghost mut scopes: Seq<Scope> = Seq::empty();
        let ghost mut states: Seq<Interpreter> = seq![*self];
        let ghost mut mids: Seq<Interpreter> = Seq::empty();
        let ghost mut results: Seq<Result<(), EvalError>> = Seq::empty();
        proof {
            crate::functions::lemma_adds_scopes_preorder(&f0, &f0, &f0);
        }
        loop
            invariant_except_break
                goal == parse_all_spec(name, pipeline.parser.reader_state(), views),
                failure is None,
            invariant
                self.evolves_from(&*old(self)),
                failure is None ==> self.frames() == old(self).frames(),
                self.fns().valid(scope),
                pipeline.parser.stream_name() == name,
                f0 == old(self).fns(),
                s0 == old(self).values(),
                c0 == f0.scope_count(),
                f0.valid(scope),
                values_fit_views(vals, views, scopes),
                o0 == old(self).out(),
                fl == old(self).limit() as nat,
                evaluation_trace(states, mids, results, scope, vals, scopes, fl),
                states[0] == *old(self),
                states.last() == *self,
                failure is None ==> forall|k: int| 0 <= k < results.len() ==> #[trigger] results[k] == Ok::<(), EvalError>(()),
                failure matches Some(Error { kind: ErrorKind::Context(e), .. }) ==> {
                    &&& results.len() > 0
                    &&& results.last() == Err::<(), EvalError>(e)
                    &&& forall|k: int| 0 <= k < results.len() - 1 ==> #[trigger] results[k] == Ok::<(), EvalError>(())
                },
                failure matches Some(Error { kind: ErrorKind::Context(_), .. }) ==> goal == parse_all_spec(
                    name,
                    pipeline.parser.reader_state(),
                    views,
                ),
                failure matches Some(Error { kind: ErrorKind::Context(e), .. }) ==> (simple_run(f0, fl, scope, s0, o0, vals) matches Some((r1, s1, o1)) ==> {
                    &&& r1 == Err::<(), EvalError>(e)
                    &&& numbered_from(scopes, c0)
                    &&& self.values() == s1
                    &&& self.out() == o1
                }),
                failure is None ==> (simple_run(f0, fl, scope, s0, o0, vals) matches Some((r1, s1, o1)) ==> {
                    &&& r1 is Ok
                    &&& numbered_from(scopes, c0)
                    &&& self.values() == s1
                    &&& self.out() == o1
                    &&& self.fns().adds_scopes_to(&f0)
                    &&& self.fns().scope_count() == c0 + vals.len()
                }),
            ensures
                failure is None ==> goal.0 == Ok::<Seq<ExprView>, parser::ErrorView>(views),
                failure matches Some(Error { kind: ErrorKind::Parser(e), .. }) ==> goal.0 matches Err(ev)
                    && error_matches(e, ev),
            decreases pipeline.parser.reader_state().input.len() - pipeline.parser.reader_state().cursor,
        {
            pipeline.parser.position();
            let ghost rs = pipeline.parser.reader_state();
            proof {
                parser::lemma_parse_expression_moves(pipeline.parser.stream_name(), pipeline.parser.reader_state());
            }
            let ghost view_next = parser::parse_expression_spec(name, rs).0->Ok_0;
            let expression = match pipeline.parser.next_expression(&*host, &mut source) {
                Ok(e) => {
                    proof {
                        views = views.push(view_next);
                    }
                    e
                },
                Err(parser::Error::EndOfStream) => {
                    break;
                },
                Err(e) => {
                    failure = Some(Error { kind: ErrorKind::Parser(e), call_stack: self.call_stack.clone() });
                    break;
                },
            };
            let ghost mid = *self;
            let list_scope = self.list_scope(scope);
            proof {
                law_evolves_preorder(&*old(self), &mid, &*self);
            }
            let ghost mid2 = *self;
            let ghost prev = vals;
            let value = Any::from_expression(expression, list_scope);
            let ghost gv = value;
            proof {
                lemma_value_fits_view(value, expression, view_next, list_scope);
                lemma_simple_run_push(f0, fl, scope, s0, o0, vals, value);
                let k = vals.len();
                vals = vals.push(value);
                scopes = scopes.push(list_scope);
                assert(vals[k as int] == value);
                assert(scopes[k as int] == list_scope);
                assert(values_fit_views(vals, views, scopes));
            }
            let limit = self.depth_limit;
            let result = self.evaluate_value(host, scope, value, limit);
            proof {
                law_evolves_preorder(&*old(self), &mid2, &*self);
                let k = mids.len() as int;
                mids = mids.push(mid2);
                states = states.push(*self);
                results = results.push(result);
                assert(mids[k] == mid2);
                assert(states[k + 1] == *self);
                assert(states[k] == mid);
                assert(scope_added(states[k], mids[k], scope, scopes[k]));
                assert(value_outcome(mids[k], states[k + 1], scope, vals[k], fl, results[k]));
                assert(evaluation_trace(states, mids, results, scope, vals, scopes, fl));
            }
            proof {
                if simple_run(f0, fl, scope, s0, o0, vals) is Some {
                    let triple = simple_run(f0, fl, scope, s0, o0, prev).unwrap();
                    let s1 = triple.1;
                    let o1 = triple.2;
                    assert(mid.values() == s1);
                    assert(mid2.values() == s1);
                    assert(mid2.out() == o1);
                    crate::functions::lemma_adds_scopes_preorder(&f0, &mid.fns(), &mid2.fns());
                    assert(numbered_from(scopes, c0));
                    lemma_step_adds_scopes(f0, mid2.fns(), fl, scope, s1, o1, gv);
                }
            }
            match result {
                Ok(()) => {
                    proof {
                        let u = results.last()->Ok_0;
                        assert(u == ());
                    }
                },
                Err(e) => {
                    failure = Some(Error { kind: ErrorKind::Context(e), call_stack: self.call_stack.clone() });
                    break;
                },
            }
        }
        proof {
            if failure is None {
                assert(values_fit_views(vals, goal.0->Ok_0, scopes));
            }
        }
        let ghost before_push = *self;
        self.sources.push((name, source));
        proof {
            assert(before_push.texts().is_prefix_of(self.texts()));
            assert(before_push.out().is_prefix_of(self.out()));
            crate::functions::law_extends_preorder(&before_push.fns(), &before_push.fns(), &before_push.fns());
            law_evolves_preorder(&*old(self), &before_push, &*self);
        }
        match failure {
            Some(e) => Err(e),
            None => Ok(()),
        }
    }

    /// Makes the standard module of the language available to `load` under
    /// the name `std`; its text is handed in by the embedding application.
    pub fn with_default_modules(self, std: Vec<u8>) -> (r: Interpreter)
        ensures
            r.modules().len() == self.modules().len() + 1,
            r.modules().last().0@ == "std"@,
            r.modules().last().1@ == std@,
            r.modules().drop_last() == self.modules(),
            r.fns() == self.fns(),
            r.values() == self.values(),
            r.limit() == self.limit(),
    {
        let r = self.with_module(str_to_string("std"), std);
        proof {
            assert(r.modules().drop_last() =~= self.modules());
        }
        r
    }

    /// Evaluates the prelude, a program of the language that defines
    /// functions for every program, in the root scope; its text is handed in
    /// by the embedding application.
    pub fn with_default_prelude<H: Host>(self, host: &mut H, prelude: Vec<u8>) -> (r: Result<Interpreter, Error>)
        ensures
            r matches Ok(i) ==> i.evolves_from(&self) && i.frames() == self.frames() && i.texts().last().0@
                == "<prelude>"@,
            r is Ok ==> exists|name: String| #![trigger name@]
                name@ == "<prelude>"@ && parse_all_spec(name, initial_state(prelude@), Seq::empty()).0 is Ok,
            r matches Err(Error { kind: ErrorKind::Parser(e), .. }) ==> exists|name: String| #![trigger name@]
                name@ == "<prelude>"@ && (parse_all_spec(name, initial_state(prelude@), Seq::empty()).0 matches Err(
                    ev,
                ) && error_matches(e, ev)),
            r matches Ok(i) ==> exists|
                name: String,
                states: Seq<Interpreter>,
                mids: Seq<Interpreter>,
                results: Seq<Result<(), EvalError>>,
                vals: Seq<Any>,
                scopes: Seq<Scope>,
            |
                #![trigger name@, evaluation_trace(states, mids, results, Scope(0), vals, scopes, self.limit() as nat)]
                {
                &&& name@ == "<prelude>"@
                &&& values_fit_views(vals, parse_all_spec(name, initial_state(prelude@), Seq::empty()).0->Ok_0, scopes)
                &&& evaluation_trace(states, mids, results, Scope(0), vals, scopes, self.limit() as nat)
                &&& states[0] == self
                &&& forall|k: int| 0 <= k < results.len() ==> #[trigger] results[k] == Ok::<(), EvalError>(())
                &&& i.values() == states.last().values()
                &&& i.out() == states.last().out()
                &&& i.fns() == states.last().fns()
            },
    {
        let mut s = self;
        let root = s.functions.root_scope();
        proof {
            reveal_strlit("<prelude>");
        }
        let name = str_to_string("<prelude>");
        let ghost gname = name;
        match s.evaluate_stream(host, root, name, prelude) {
            Ok(()) => {
                proof {
                    assert(gname@ == "<prelude>"@);
                }
                Ok(s)
            },
            Err(e) => Err(e),
        }
    }

    /// Runs the program `program` of the stream `name` in the root scope, and
    /// hands back the values it left on the stack, bottom first. The
    /// program's values are evaluated one after the other as
    /// `evaluation_trace` states it; where every word that runs is one that
    /// `step` states, the values are those that `simple_run` gives.
    pub fn run<H: Host>(&mut self, host: &mut H, name: String, program: Vec<u8>) -> (r: Result<Vec<Any>, Error>)
        ensures
            final(self).evolves_from(&*old(self)),
            r is Ok ==> final(self).values() == Seq::<Any>::empty() && final(self).frames() == old(self).frames(),
            r is Ok ==> parse_all_spec(name, initial_state(program@), Seq::empty()).0 is Ok,
            r matches Err(Error { kind: ErrorKind::Parser(e), .. }) ==> parse_all_spec(
                name,
                initial_state(program@),
                Seq::empty(),
            ).0 matches Err(ev) && error_matches(e, ev),
            final(self).texts().last().0@ == name@,
            r matches Ok(v) ==> exists|vals: Seq<Any>, scopes: Seq<Scope>| {
                &&& #[trigger] values_fit_views(
                    vals,
                    parse_all_spec(name, initial_state(program@), Seq::empty()).0->Ok_0,
                    scopes,
                )
                &&& (simple_run(old(self).fns(), old(self).limit() as nat, Scope(0), old(self).values(), old(self).out(), vals) matches Some((r0, s0, o0)) ==> {
                    &&& r0 is Ok
                    &&& numbered_from(scopes, old(self).fns().scope_count())
                    &&& v@ == s0
                    &&& final(self).out() == o0
                })
            },
            r matches Ok(v) ==> exists|
                states: Seq<Interpreter>,
                mids: Seq<Interpreter>,
                results: Seq<Result<(), EvalError>>,
                vals: Seq<Any>,
                scopes: Seq<Scope>,
            |
                #![trigger evaluation_trace(states, mids, results, Scope(0), vals, scopes, old(self).limit() as nat)]
                {
                &&& values_fit_views(vals, parse_all_spec(name, initial_state(program@), Seq::empty()).0->Ok_0, scopes)
                &&& evaluation_trace(states, mids, results, Scope(0), vals, scopes, old(self).limit() as nat)
                &&& states[0] == *old(self)
                &&& forall|k: int| 0 <= k < results.len() ==> #[trigger] results[k] == Ok::<(), EvalError>(())
                &&& v@ == states.last().values()
                &&& final(self).out() == states.last().out()
                &&& final(self).fns() == states.last().fns()
            },
            r matches Err(Error { kind: ErrorKind::Context(e), .. }) ==> exists|
                states: Seq<Interpreter>,
                mids: Seq<Interpreter>,
                results: Seq<Result<(), EvalError>>,
                vals: Seq<Any>,
                scopes: Seq<Scope>,
                views: Seq<ExprView>,
                rest: crate::reader::ReaderState,
            |
                #![trigger evaluation_trace(states, mids, results, Scope(0), vals, scopes, old(self).limit() as nat), parse_all_spec(name, rest, views)]
                {
                &&& parse_all_spec(name, initial_state(program@), Seq::empty()) == parse_all_spec(name, rest, views)
                &&& values_fit_views(vals, views, scopes)
                &&& evaluation_trace(states, mids, results, Scope(0), vals, scopes, old(self).limit() as nat)
                &&& states[0] == *old(self)
                &&& results.len() > 0
                &&& results.last() == Err::<(), EvalError>(e)
                &&& forall|k: int| 0 <= k < results.len() - 1 ==> #[trigger] results[k] == Ok::<(), EvalError>(())
                &&& final(self).values() == states.last().values()
                &&& final(self).out() == states.last().out()
                &&& final(self).fns() == states.last().fns()
            },
            r matches Err(Error { kind: ErrorKind::Context(e), .. }) ==> exists|
                vals: Seq<Any>,
                scopes: Seq<Scope>,
                views: Seq<ExprView>,
                rest: crate::reader::ReaderState,
            |
                #![trigger values_fit_views(vals, views, scopes), parse_all_spec(name, rest, views)]
                {
                &&& parse_all_spec(name, initial_state(program@), Seq::empty()) == parse_all_spec(name, rest, views)
                &&& values_fit_views(vals, views, scopes)
                &&& (simple_run(old(self).fns(), old(self).limit() as nat, Scope(0), old(self).values(), old(self).out(), vals) matches Some((r0, s0, o0)) ==> {
                    &&& r0 == Err::<(), EvalError>(e)
                    &&& numbered_from(scopes, old(self).fns().scope_count())
                    &&& final(self).values() == s0
                    &&& final(self).out() == o0
                })
            },
    {
        let root = self.functions.root_scope();
        self.evaluate_stream(host, root, name, program)?;
        let ghost end = *self;
        let mut stack = Stack::new();
        std::mem::swap(&mut stack, &mut self.stack);
        let v = stack.into_vec();
        proof {
            assert(v@ == end.values());
        }
        Ok(v)
    }
}

/// Merges two optional spans.
pub fn merge_opt(a: Option<Span>, b: Option<Span>) -> (r: Option<Span>)
    ensures
        r == opt_span_merge(a, b),
{
    match a {
        None => b,
        Some(a) => match b {
            None => Some(a),
            Some(b) => Some(a.merge(&b)),
        },
    }
}

/// The builtin functions of the language: name, argument types (deepest on
/// the stack first) and builtin.
pub open spec fn builtin_table() -> Seq<(Seq<char>, Seq<Type>, Builtin)> {
    seq![
        ("print"@, seq![Type::Any], Builtin::Print),
        ("define"@, seq![Type::List, Type::Symbol], Builtin::Define),
        ("define"@, seq![Type::List, Type::Symbol, Type::Scope], Builtin::DefineS),
        ("caller"@, Seq::<Type>::empty(), Builtin::Caller),
        ("fail"@, Seq::<Type>::empty(), Builtin::Fail),
        ("eval"@, seq![Type::List], Builtin::Eval),
        ("load"@, seq![Type::String], Builtin::Load),
        ("to_list"@, seq![Type::Symbol], Builtin::ToList),
        ("drop"@, seq![Type::Any], Builtin::Drop),
        ("clone"@, seq![Type::Any], Builtin::Clone),
        ("swap"@, seq![Type::Any, Type::Any], Builtin::Swap),
        ("dig"@, seq![Type::Any, Type::List], Builtin::Dig),
        ("if"@, seq![Type::List, Type::List], Builtin::If),
        ("list"@, seq![Type::Number], Builtin::List),
        ("map"@, seq![Type::List, Type::List], Builtin::MapEach),
        ("wrap"@, seq![Type::Any], Builtin::Wrap),
        ("unwrap"@, seq![Type::List], Builtin::Unwrap),
        ("prepend"@, seq![Type::List, Type::Any], Builtin::Prepend),
        ("append"@, seq![Type::List, Type::Any], Builtin::Append),
        ("+"@, seq![Type::Number, Type::Number], Builtin::AddN),
        ("-"@, seq![Type::Number, Type::Number], Builtin::SubN),
        ("*"@, seq![Type::Number, Type::Number], Builtin::MulN),
        ("/"@, seq![Type::Number, Type::Number], Builtin::DivN),
        (">"@, seq![Type::Number, Type::Number], Builtin::GtN),
        ("="@, seq![Type::Any, Type::Any], Builtin::Eq),
        ("not"@, seq![Type::Bool], Builtin::Not)
    ]
}

/// Whether every builtin of the table is found in the root scope for every
/// stack that matches its signature.
pub open spec fn builtins_defined(fs: Functions<Function>) -> bool {
    forall|k: int, tys: Seq<Type>|
        #![trigger fs.lookup_in(Scope(0), builtin_table()[k].0, tys)]
        0 <= k < builtin_table().len() && exact_match(builtin_table()[k].1, tys) ==> fs.lookup_in(
            Scope(0),
            builtin_table()[k].0,
            tys,
        ) == Some(Function::Builtin(builtin_table()[k].2))
}

/// The place in the builtin table of the first entry with the name `s`,
/// told apart by the name's length and first letter (and last, for `load`).
spec fn builtin_rank(s: Seq<char>) -> int {
    if s.len() == 5 && s[0] == 'p' {
        0
    } else if s.len() == 6 && s[0] == 'd' {
        1
    } else if s.len() == 6 && s[0] == 'c' {
        3
    } else if s.len() == 4 && s[0] == 'f' {
        4
    } else if s.len() == 4 && s[0] == 'e' {
        5
    } else if s.len() == 4 && s[0] == 'l' && s[3] == 'd' {
        6
    } else if s.len() == 7 && s[0] == 't' {
        7
    } else if s.len() == 4 && s[0] == 'd' {
        8
    } else if s.len() == 5 && s[0] == 'c' {
        9
    } else if s.len() == 4 && s[0] == 's' {
        10
    } else if s.len() == 3 && s[0] == 'd' {
        11
    } else if s.len() == 2 && s[0] == 'i' {
        12
    } else if s.len() == 4 && s[0] == 'l' {
        13
    } else if s.len() == 3 && s[0] == 'm' {
        14
    } else if s.len() == 4 && s[0] == 'w' {
        15
    } else if s.len() == 6 && s[0] == 'u' {
        16
    } else if s.len() == 7 && s[0] == 'p' {
        17
    } else if s.len() == 6 && s[0] == 'a' {
        18
    } else if s.len() == 1 && s[0] == '+' {
        19
    } else if s.len() == 1 && s[0] == '-' {
        20
    } else if s.len() == 1 && s[0] == '*' {
        21
    } else if s.len() == 1 && s[0] == '/' {
        22
    } else if s.len() == 1 && s[0] == '>' {
        23
    } else if s.len() == 1 && s[0] == '=' {
        24
    } else if s.len() == 3 && s[0] == 'n' {
        25
    } else {
        -1
    }
}

/// Each entry of the builtin table has its own rank, but for the second
/// signature of `define`, which shares the first one's.
proof fn lemma_builtin_rank(j: int)
    requires
        0 <= j < builtin_table().len(),
    ensures
        builtin_rank(builtin_table()[j].0) == (if j == 2 { 1 } else { j }),
{
    reveal_strlit("print");
    reveal_strlit("define");
    reveal_strlit("caller");
    reveal_strlit("fail");
    reveal_strlit("eval");
    reveal_strlit("load");
    reveal_strlit("to_list");
    reveal_strlit("drop");
    reveal_strlit("clone");
    reveal_strlit("swap");
    reveal_strlit("dig");
    reveal_strlit("if");
    reveal_strlit("list");
    reveal_strlit("map");
    reveal_strlit("wrap");
    reveal_strlit("unwrap");
    reveal_strlit("prepend");
    reveal_strlit("append");
    reveal_strlit("+");
    reveal_strlit("-");
    reveal_strlit("*");
    reveal_strlit("/");
    reveal_strlit(">");
    reveal_strlit("=");
    reveal_strlit("not");
    // One case per entry, so that each name is known.
    if j == 0 {
    } else if j == 1 {
    } else if j == 2 {
    } else if j == 3 {
    } else if j == 4 {
    } else if j == 5 {
    } else if j == 6 {
    } else if j == 7 {
    } else if j == 8 {
    } else if j == 9 {
    } else if j == 10 {
    } else if j == 11 {
    } else if j == 12 {
    } else if j == 13 {
    } else if j == 14 {
    } else if j == 15 {
    } else if j == 16 {
    } else if j == 17 {
    } else if j == 18 {
    } else if j == 19 {
    } else if j == 20 {
    } else if j == 21 {
    } else if j == 22 {
    } else if j == 23 {
    } else if j == 24 {
    } else if j == 25 {
    }
}

/// Two entries of the builtin table share a name only where they are the two
/// signatures of `define`.
proof fn lemma_builtin_names_distinct(i: int, k: int)
    requires
        0 <= i < k < builtin_table().len(),
        builtin_table()[i].0 == builtin_table()[k].0,
    ensures
        i == 1 && k == 2,
{
    lemma_builtin_rank(i);
    lemma_builtin_rank(k);
}

/// The builtin table as values.
fn builtin_entries() -> (r: Vec<(&'static str, Vec<Type>, Builtin)>)
    ensures
        r@.len() == builtin_table().len(),
        forall|k: int| 0 <= k < r@.len() ==> (#[trigger] r@[k]).0@ == builtin_table()[k].0
            && r@[k].1@ == builtin_table()[k].1 && r@[k].2 == builtin_table()[k].2,
{
    let mut table: Vec<(&'static str, Vec<Type>, Builtin)> = Vec::new();
    table.push(("print", vec![Type::Any], Builtin::Print));
    table.push(("define", vec![Type::List, Type::Symbol], Builtin::Define));
    table.push(("define", vec![Type::List, Type::Symbol, Type::Scope], Builtin::DefineS));
    table.push(("caller", Vec::new(), Builtin::Caller));
    table.push(("fail", Vec::new(), Builtin::Fail));
    table.push(("eval", vec![Type::List], Builtin::Eval));
    table.push(("load", vec![Type::String], Builtin::Load));
    table.push(("to_list", vec![Type::Symbol], Builtin::ToList));
    table.push(("drop", vec![Type::Any], Builtin::Drop));
    table.push(("clone", vec![Type::Any], Builtin::Clone));
    table.push(("swap", vec![Type::Any, Type::Any], Builtin::Swap));
    table.push(("dig", vec![Type::Any, Type::List], Builtin::Dig));
    table.push(("if", vec![Type::List, Type::List], Builtin::If));
    table.push(("list", vec![Type::Number], Builtin::List));
    table.push(("map", vec![Type::List, Type::List], Builtin::MapEach));
    table.push(("wrap", vec![Type::Any], Builtin::Wrap));
    table.push(("unwrap", vec![Type::List], Builtin::Unwrap));
    table.push(("prepend", vec![Type::List, Type::Any], Builtin::Prepend));
    table.push(("append", vec![Type::List, Type::Any], Builtin::Append));
    table.push(("+", vec![Type::Number, Type::Number], Builtin::AddN));
    table.push(("-", vec![Type::Number, Type::Number], Builtin::SubN));
    table.push(("*", vec![Type::Number, Type::Number], Builtin::MulN));
    table.push(("/", vec![Type::Number, Type::Number], Builtin::DivN));
    table.push((">", vec![Type::Number, Type::Number], Builtin::GtN));
    table.push(("=", vec![Type::Any, Type::Any], Builtin::Eq));
    table.push(("not", vec![Type::Bool], Builtin::Not));
    proof {
        assert forall|k: int| 0 <= k < table@.len() implies (#[trigger] table@[k]).0@ == builtin_table()[k].0
            && table@[k].1@ == builtin_table()[k].1 && table@[k].2 == builtin_table()[k].2 by {
            assert(table@[k].1@ =~= builtin_table()[k].1);
        }
    }
    table
}

/// While the builtins are defined in turn from entry `i` on, the name of
/// entry `k` is not yet defined in the root scope, but for the second
/// signature of `define`, which finds the first one defined.
spec fn unclaimed_or_define(fs: Functions<Function>, i: int, k: int) -> bool {
    ||| fs.node_of(Scope(0), builtin_table()[k].0) is None
    ||| (k == 2 && i == 2 && (fs.node_of(Scope(0), builtin_table()[k].0) matches Some(nd) && is_chain(
        nd,
        builtin_table()[1].1,
        Function::Builtin(Builtin::Define),
    )))
}

/// Defines the builtin functions of the language in the root scope.
pub fn builtins(functions: &mut Functions<Function>) -> (r: Result<(), DefineError>)
    ensures
        final(functions).extends(&*old(functions)),
        r is Ok ==> builtins_defined(*final(functions)),
        (forall|k: int| 0 <= k < builtin_table().len() ==> #[trigger] old(functions).node_of(
            Scope(0),
            builtin_table()[k].0,
        ) is None) ==> r is Ok,
{
    let root = functions.root_scope();
    let ghost orig = *functions;
    let ghost fresh = forall|k: int| 0 <= k < builtin_table().len() ==> #[trigger] orig.node_of(
        Scope(0),
        builtin_table()[k].0,
    ) is None;
    proof {
        crate::functions::law_extends_preorder(&orig, &orig, &orig);
    }
    let table = builtin_entries();
    let n = table.len();
    let mut i: usize = 0;
    while i < n
        invariant
            n == table@.len(),
            n == builtin_table().len(),
            i <= n,
            root == Scope(0),
            functions.valid(root),
            functions.extends(&orig),
            orig == *old(functions),
            forall|k: int| 0 <= k < table@.len() ==> (#[trigger] table@[k]).0@ == builtin_table()[k].0
                && table@[k].1@ == builtin_table()[k].1 && table@[k].2 == builtin_table()[k].2,
            forall|k: int, tys: Seq<Type>|
                #![trigger functions.lookup_in(Scope(0), builtin_table()[k].0, tys)]
                0 <= k < i && exact_match(builtin_table()[k].1, tys) ==> functions.lookup_in(
                    Scope(0),
                    builtin_table()[k].0,
                    tys,
                ) == Some(Function::Builtin(builtin_table()[k].2)),
            fresh == (forall|k: int| 0 <= k < builtin_table().len() ==> #[trigger] orig.node_of(
                Scope(0),
                builtin_table()[k].0,
            ) is None),
            fresh ==> forall|k: int| #![trigger builtin_table()[k]] i <= k < n ==> unclaimed_or_define(
                *functions,
                i as int,
                k,
            ),
        decreases n - i,
    {
        let ghost before = *functions;
        let entry = &table[i];
        proof {
            if fresh {
                assert(unclaimed_or_define(*functions, i as int, i as int));
                if i == 2 && functions.node_of(Scope(0), builtin_table()[2].0) is Some {
                    let nd = functions.node_of(Scope(0), builtin_table()[2].0)->0;
                    assert(is_chain(nd, builtin_table()[1].1, Function::Builtin(Builtin::Define)));
                    assert(builtin_table()[1].1.last() == Type::Symbol);
                    assert(builtin_table()[2].1.last() == Type::Scope);
                    assert(nd matches Node::Type(es) && es@.len() == 1 && !type_eq(es@[0].0, Type::Scope));
                    assert(find_from(nd->Type_0@, Type::Scope, 1) == -1);
                }
                assert(define_conflicts(functions.node_of(Scope(0), builtin_table()[i as int].0), builtin_table()[i as int].1) is None);
            }
        }
        define_builtin(functions, root, entry.0, entry.1.as_slice(), entry.2, Ghost(orig))?;
        proof {
            assert forall|k: int, tys: Seq<Type>|
                0 <= k < i + 1 && exact_match(builtin_table()[k].1, tys) implies #[trigger] functions.lookup_in(
                    Scope(0),
                    builtin_table()[k].0,
                    tys,
                ) == Some(Function::Builtin(builtin_table()[k].2)) by {
                if k < i {
                    assert(before.lookup_in(Scope(0), builtin_table()[k].0, tys) is Some);
                }
            }
            if fresh {
                assert forall|k: int| #![trigger builtin_table()[k]] i + 1 <= k < n implies unclaimed_or_define(
                    *functions,
                    i + 1,
                    k,
                ) by {
                    assert(unclaimed_or_define(before, i as int, k));
                    if builtin_table()[k].0 == builtin_table()[i as int].0 {
                        lemma_builtin_names_distinct(i as int, k);
                        assert(unclaimed_or_define(before, i as int, i as int));
                    } else {
                        assert(functions.node_of(Scope(0), builtin_table()[k].0) == before.node_of(
                            Scope(0),
                            builtin_table()[k].0,
                        ));
                    }
                }
            }
        }
        i = i + 1;
    }
    Ok(())
}

/// Defines one builtin under `name` in `scope`.
fn define_builtin(
    functions: &mut Functions<Function>,
    scope: Scope,
    name: &str,
    args: &[Type],
    b: Builtin,
    orig: Ghost<Functions<Function>>,
) -> (r: Result<(), DefineError>)
    requires
        old(functions).valid(scope),
        old(functions).extends(&orig@),
    ensures
        final(functions).extends(&*old(functions)),
        final(functions).extends(&orig@),
        final(functions).valid(scope),
        r is Err <==> define_conflicts(old(functions).node_of(scope, name@), args@) is Some,
        r matches Err(e) ==> e.name@ == name@ && define_conflicts(
            old(functions).node_of(scope, name@),
            args@,
        ) == Some(signatures_view(e.conflicting@)) && *final(functions) == *old(functions),
        r is Ok ==> forall|tys: Seq<Type>| #[trigger] exact_match(args@, tys) ==> final(functions).lookup_in(
            scope,
            name@,
            tys,
        ) == Some(Function::Builtin(b)),
        forall|s: Scope, nm: Seq<char>| #[trigger]
            final(functions).node_of(s, nm) != old(functions).node_of(s, nm) && old(functions).valid(s)
                ==> s == scope && nm == name@,
        old(functions).node_of(scope, name@) is None ==> (final(functions).node_of(scope, name@) matches Some(
            nd,
        ) && is_chain(nd, args@, Function::Builtin(b))),
{
    let r = functions.define(scope, str_to_string(name), args, Function::Builtin(b));
    proof {
        crate::functions::law_extends_preorder(&*old(functions), &*old(functions), &*functions);
        crate::functions::law_extends_preorder(&orig@, &*old(functions), &*functions);
    }
    r
}

} // verus!
