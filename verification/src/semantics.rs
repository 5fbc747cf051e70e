//! What evaluation does, stated over the functions defined, the stack, the
//! output and the call stack: what each builtin does (`pure_effect`,
//! `word_effect` and the `*_outcome` predicates), what evaluating a value,
//! a list and a program does (`value_outcome`, `list_evaluation`,
//! `evaluation_trace`), and, computed outright, what programs whose words
//! call the plain builtins, `dig`, `if` and defined functions compute
//! (`step`, `simple_run`).

use vstd::prelude::*;

use crate::{
    call_stack::StackFrame,
    context::Error as EvalError,
    convert::{value_fits_view, value_of_expr},
    functions::{Functions, Scope},
    interpreter::{Builtin, Function, Interpreter},
    node::stack_types,
    parser::{error_matches, expr_matches, parse_all_spec, ExprView, Expression},
    source::{opt_span_merge, Span},
    stack::{self, clamp_bases},
    types::{type_eq, Type},
    value::{display, kind_eq, kind_type, Any, Kind, ListInner, TypeError},
};

verus! {

/// The data of a number, or of a boolean from comparing numbers, that an
/// arithmetic builtin computes; `None` where the result is no number.
pub open spec fn number_result(b: Builtin, x: u32, y: u32) -> Option<Kind> {
    match b {
        Builtin::AddN => if x + y <= u32::MAX { Some(Kind::Number((x + y) as u32)) } else { None },
        Builtin::SubN => if x >= y { Some(Kind::Number((x - y) as u32)) } else { None },
        Builtin::MulN => if x * y <= u32::MAX { Some(Kind::Number((x * y) as u32)) } else { None },
        Builtin::DivN => if y != 0 { Some(Kind::Number((x / y) as u32)) } else { None },
        _ => Some(Kind::Bool(x > y)),
    }
}

/// The topmost value checked against a type.
pub open spec fn cast1(s: Seq<Any>, t: Type) -> Result<Any, EvalError> {
    if s.len() == 0 {
        Err(EvalError::Stack(stack::Error::StackEmpty))
    } else if !type_eq(t, kind_type(s.last().kind)) {
        Err(EvalError::Type(TypeError { expected: t, actual: s.last() }))
    } else {
        Ok(s.last())
    }
}

/// The two topmost values, in stack order, checked against two types: the
/// lower value is checked first.
pub open spec fn cast2(s: Seq<Any>, ta: Type, tb: Type) -> Result<(Any, Any), EvalError> {
    if s.len() < 2 {
        Err(EvalError::Stack(stack::Error::StackEmpty))
    } else {
        let a = s[s.len() - 2];
        let b = s[s.len() - 1];
        if !type_eq(ta, kind_type(a.kind)) {
            Err(EvalError::Type(TypeError { expected: ta, actual: a }))
        } else if !type_eq(tb, kind_type(b.kind)) {
            Err(EvalError::Type(TypeError { expected: tb, actual: b }))
        } else {
            Ok((a, b))
        }
    }
}

/// The topmost three values, in stack order, checked against three types, the
/// lowest first.
pub open spec fn cast3(s: Seq<Any>, ta: Type, tb: Type, tc: Type) -> Result<(Any, Any, Any), EvalError> {
    if s.len() < 3 {
        Err(EvalError::Stack(stack::Error::StackEmpty))
    } else {
        let a = s[s.len() - 3];
        let b = s[s.len() - 2];
        let c = s[s.len() - 1];
        if !type_eq(ta, kind_type(a.kind)) {
            Err(EvalError::Type(TypeError { expected: ta, actual: a }))
        } else if !type_eq(tb, kind_type(b.kind)) {
            Err(EvalError::Type(TypeError { expected: tb, actual: b }))
        } else if !type_eq(tc, kind_type(c.kind)) {
            Err(EvalError::Type(TypeError { expected: tc, actual: c }))
        } else {
            Ok((a, b, c))
        }
    }
}

/// The stack after taking one value.
pub open spec fn after_pop1(s: Seq<Any>) -> Seq<Any> {
    if s.len() == 0 { s } else { s.drop_last() }
}

/// The stack after taking two values: two fewer, or none where there were
/// fewer than two.
pub open spec fn after_pop2(s: Seq<Any>) -> Seq<Any> {
    if s.len() < 2 { Seq::empty() } else { s.take(s.len() - 2) }
}

/// The number of values left of `n` after taking `k`, as far as there are.
pub open spec fn down_to(n: int, k: int) -> int {
    if n >= k { n - k } else { 0 }
}

/// The lesser of two numbers.
pub open spec fn lesser(a: int, b: int) -> int {
    if a <= b { a } else { b }
}

/// Two results that are both success, or both the same error.
pub open spec fn same_result(r: Result<(), EvalError>, expected: Result<(), EvalError>) -> bool {
    &&& (r is Ok <==> expected is Ok)
    &&& (r is Err ==> r->Err_0 == expected->Err_0)
}

/// The builtins that only work on the stack.
pub open spec fn is_pure(b: Builtin) -> bool {
    b is Fail || b is Drop || b is Swap || b is Clone || b is Not || b is Eq || b is Unwrap
        || b is AddN || b is SubN || b is MulN || b is DivN || b is GtN
}

/// Exactly the builtins that only work on the stack have a stack effect.
pub proof fn lemma_pure(b: Builtin, s: Seq<Any>, op: Option<Span>)
    ensures
        is_pure(b) <==> pure_effect(b, s, op) is Some,
{
}

/// The result and the stack after a builtin that only works on the stack,
/// for the stack `s`, where the word that called it stands at `op`; `None`
/// for the other builtins.
pub open spec fn pure_effect(b: Builtin, s: Seq<Any>, op: Option<Span>) -> Option<(Result<(), EvalError>, Seq<Any>)> {
    let empty = Err::<(), EvalError>(EvalError::Stack(stack::Error::StackEmpty));
    match b {
        Builtin::Fail => Some((Err(EvalError::Failure), s)),
        Builtin::Drop => if s.len() == 0 { Some((empty, s)) } else { Some((Ok(()), s.drop_last())) },
        Builtin::Swap => if s.len() < 2 {
            Some((empty, Seq::empty()))
        } else {
            Some((Ok(()), after_pop2(s).push(s.last()).push(s[s.len() - 2])))
        },
        Builtin::Clone => if s.len() == 0 {
            Some((empty, s))
        } else {
            let c = Any { kind: s.last().kind, span: opt_span_merge(op, s.last().span) };
            Some((Ok(()), s.drop_last().push(c).push(c)))
        },
        Builtin::Not => match cast1(s, Type::Bool) {
            Err(e) => Some((Err(e), after_pop1(s))),
            Ok(v) => Some((Ok(()), s.drop_last().push(Any { kind: Kind::Bool(!(v.kind->Bool_0)), span: v.span }))),
        },
        Builtin::Eq => if s.len() < 2 {
            Some((empty, Seq::empty()))
        } else {
            let a = s[s.len() - 2];
            let c = s.last();
            match kind_eq(a.kind, c.kind) {
                None => Some((Err(EvalError::Incomparable), after_pop2(s))),
                Some(x) => Some((Ok(()), after_pop2(s).push(Any { kind: Kind::Bool(x), span: opt_span_merge(a.span, c.span) }))),
            }
        },
        Builtin::Unwrap => match cast1(s, Type::List) {
            Err(e) => Some((Err(e), after_pop1(s))),
            Ok(l) => Some((Ok(()), s.drop_last() + (l.kind->List_0).items@)),
        },
        Builtin::AddN | Builtin::SubN | Builtin::MulN | Builtin::DivN | Builtin::GtN => match cast2(s, Type::Number, Type::Number) {
            Err(e) => Some((Err(e), after_pop2(s))),
            Ok((x, y)) => match number_result(b, x.kind->Number_0, y.kind->Number_0) {
                Some(k) => Some((Ok(()), after_pop2(s).push(Any { kind: k, span: opt_span_merge(x.span, y.span) }))),
                None => Some((Err(if b is DivN { EvalError::DivisionByZero } else { EvalError::Overflow }), after_pop2(s))),
            },
        },
        _ => None,
    }
}

/// How many values a builtin that only works on the stack and the output
/// takes before it pushes any.
pub open spec fn pops(b: Builtin) -> int {
    match b {
        Builtin::Fail => 0,
        Builtin::Drop | Builtin::Clone | Builtin::Not | Builtin::Unwrap | Builtin::Print => 1,
        _ => 2,
    }
}

/// What a builtin that only works on the stack and the output does to the
/// stack `s` and the output `o`, where the word that called it stands at
/// `op`; `None` for the other builtins.
pub open spec fn word_effect(b: Builtin, s: Seq<Any>, o: Seq<char>, op: Option<Span>) -> Option<
    (Result<(), EvalError>, Seq<Any>, Seq<char>),
> {
    match pure_effect(b, s, op) {
        Some((r, s1)) => Some((r, s1, o)),
        None => if b is Print {
            if s.len() == 0 {
                Some((Err(EvalError::Stack(stack::Error::StackEmpty)), s, o))
            } else {
                Some((Ok(()), s.drop_last(), o + display(s.last().kind)))
            }
        } else {
            None
        },
    }
}

/// What evaluating the value `v` in `scope` does to the stack `s` and the
/// output `o`, with `fuel` for the evaluations it nests: the result, the
/// stack and the output after. It is stated where every word that runs
/// calls a builtin that only works on the stack and the output, `dig`, `if`,
/// or a function the program defined; `None` where anything else is called.
pub open spec fn step(fns: Functions<Function>, fuel: nat, scope: Scope, s: Seq<Any>, o: Seq<char>, v: Any) -> Option<
    (Result<(), EvalError>, Seq<Any>, Seq<char>),
>
    decreases fuel, 1int,
{
    match v.kind {
        Kind::Word(w) => match fns.resolve(scope, w@, stack_types(s)) {
            Some(Function::Builtin(b)) => builtin_step(fns, fuel, b, s, o, v.span),
            Some(Function::UserDefined { body }) => if fuel == 0 {
                Some((Err(EvalError::RecursionLimit), s, o))
            } else if fns.valid(body.scope) {
                simple_run(fns, (fuel - 1) as nat, body.scope, s, o, body.items@)
            } else {
                None
            },
            None => None,
        },
        _ => Some((Ok(()), s.push(v), o)),
    }
}

/// What the builtin `b`, called by a word at `op`, does to the stack `s`
/// and the output `o`, with `fuel` for the evaluations it nests; `None` for
/// the builtins that `step` leaves open.
pub open spec fn builtin_step(fns: Functions<Function>, fuel: nat, b: Builtin, s: Seq<Any>, o: Seq<char>, op: Option<Span>) -> Option<
    (Result<(), EvalError>, Seq<Any>, Seq<char>),
>
    decreases fuel, 0int,
{
    match b {
        Builtin::Dig => match cast2(s, Type::Any, Type::List) {
            Err(e) => Some((Err(e), after_pop2(s), o)),
            Ok((item, l)) => {
                let inner = l.kind->List_0;
                if fuel == 0 {
                    Some((Err(EvalError::RecursionLimit), after_pop2(s), o))
                } else if fns.valid(inner.scope) {
                    match simple_run(fns, (fuel - 1) as nat, inner.scope, after_pop2(s), o, inner.items@) {
                        Some((r1, s1, o1)) => if r1 is Ok {
                            Some((r1, s1.push(item), o1))
                        } else {
                            Some((r1, s1, o1))
                        },
                        None => None,
                    }
                } else {
                    None
                }
            },
        },
        Builtin::If => match cast2(s, Type::List, Type::List) {
            Err(e) => Some((Err(e), after_pop2(s), o)),
            Ok((function, condition)) => {
                let f = function.kind->List_0;
                let c = condition.kind->List_0;
                if fuel == 0 {
                    Some((Err(EvalError::RecursionLimit), after_pop2(s), o))
                } else if fns.valid(c.scope) {
                    match simple_run(fns, (fuel - 1) as nat, c.scope, after_pop2(s), o, c.items@) {
                        Some((r1, s1, o1)) => if r1 is Err {
                            Some((r1, s1, o1))
                        } else {
                            match cast1(s1, Type::Bool) {
                                Err(e) => Some((Err(e), after_pop1(s1), o1)),
                                Ok(cond) => if cond.kind == Kind::Bool(true) {
                                    if fns.valid(f.scope) {
                                        simple_run(fns, (fuel - 1) as nat, f.scope, s1.drop_last(), o1, f.items@)
                                    } else {
                                        None
                                    }
                                } else {
                                    Some((Ok(()), s1.drop_last(), o1))
                                },
                            }
                        },
                        None => None,
                    }
                } else {
                    None
                }
            },
        },
        _ => word_effect(b, s, o, op),
    }
}

/// Evaluating `items` one after the other in `scope`, on the stack `s` with
/// the output `o`, up to the first error, as `step` states it.
pub open spec fn simple_run(fns: Functions<Function>, fuel: nat, scope: Scope, s: Seq<Any>, o: Seq<char>, items: Seq<Any>) -> Option<
    (Result<(), EvalError>, Seq<Any>, Seq<char>),
>
    decreases fuel, items.len() + 2,
{
    if items.len() == 0 {
        Some((Ok(()), s, o))
    } else {
        match step(fns, fuel, scope, s, o, items[0]) {
            Some((r0, s0, o0)) => if r0 is Err {
                Some((r0, s0, o0))
            } else {
                simple_run(fns, fuel, scope, s0, o0, items.drop_first())
            },
            None => None,
        }
    }
}

/// The fewest values the stack held while `v` was evaluated as `step`
/// states it, from the stack `s` on: substacks that began above that many
/// values begin there after.
pub open spec fn step_low(fns: Functions<Function>, fuel: nat, scope: Scope, s: Seq<Any>, o: Seq<char>, v: Any) -> int
    decreases fuel, 1int,
{
    match v.kind {
        Kind::Word(w) => match fns.resolve(scope, w@, stack_types(s)) {
            Some(Function::Builtin(b)) => builtin_low(fns, fuel, b, s, o, v.span),
            Some(Function::UserDefined { body }) => if fuel > 0 && fns.valid(body.scope) {
                run_low(fns, (fuel - 1) as nat, body.scope, s, o, body.items@)
            } else {
                s.len() as int
            },
            None => s.len() as int,
        },
        _ => s.len() as int,
    }
}

/// The fewest values the stack held while the builtin `b` ran as
/// `builtin_step` states it.
pub open spec fn builtin_low(fns: Functions<Function>, fuel: nat, b: Builtin, s: Seq<Any>, o: Seq<char>, op: Option<Span>) -> int
    decreases fuel, 0int,
{
    let l0 = down_to(s.len() as int, 2);
    match b {
        Builtin::Dig => match cast2(s, Type::Any, Type::List) {
            Ok((item, l)) => {
                let inner = l.kind->List_0;
                if fuel > 0 && fns.valid(inner.scope) {
                    lesser(l0, run_low(fns, (fuel - 1) as nat, inner.scope, after_pop2(s), o, inner.items@))
                } else {
                    l0
                }
            },
            Err(_) => l0,
        },
        Builtin::If => match cast2(s, Type::List, Type::List) {
            Ok((function, condition)) => {
                let f = function.kind->List_0;
                let c = condition.kind->List_0;
                if fuel > 0 && fns.valid(c.scope) {
                    let l1 = lesser(l0, run_low(fns, (fuel - 1) as nat, c.scope, after_pop2(s), o, c.items@));
                    match simple_run(fns, (fuel - 1) as nat, c.scope, after_pop2(s), o, c.items@) {
                        Some((r1, s1, o1)) => if r1 is Err {
                            l1
                        } else {
                            let l2 = lesser(l1, down_to(s1.len() as int, 1));
                            match cast1(s1, Type::Bool) {
                                Ok(cond) => if cond.kind == Kind::Bool(true) && fns.valid(f.scope) {
                                    lesser(l2, run_low(fns, (fuel - 1) as nat, f.scope, s1.drop_last(), o1, f.items@))
                                } else {
                                    l2
                                },
                                Err(_) => l2,
                            }
                        },
                        None => l1,
                    }
                } else {
                    l0
                }
            },
            Err(_) => l0,
        },
        _ => down_to(s.len() as int, pops(b)),
    }
}

/// The fewest values the stack held while `items` were evaluated as
/// `simple_run` states it.
pub open spec fn run_low(fns: Functions<Function>, fuel: nat, scope: Scope, s: Seq<Any>, o: Seq<char>, items: Seq<Any>) -> int
    decreases fuel, items.len() + 2,
{
    if items.len() == 0 {
        s.len() as int
    } else {
        let l0 = step_low(fns, fuel, scope, s, o, items[0]);
        match step(fns, fuel, scope, s, o, items[0]) {
            Some((r0, s0, o0)) => if r0 is Err {
                l0
            } else {
                lesser(l0, run_low(fns, fuel, scope, s0, o0, items.drop_first()))
            },
            None => l0,
        }
    }
}

/// Running items and then one more is running the items, and then, where
/// they succeeded, the one more on the stack and output they left.
pub proof fn lemma_simple_run_push(
    fns: Functions<Function>,
    fuel: nat,
    scope: Scope,
    s: Seq<Any>,
    o: Seq<char>,
    items: Seq<Any>,
    v: Any,
)
    ensures
        simple_run(fns, fuel, scope, s, o, items.push(v)) == match simple_run(fns, fuel, scope, s, o, items) {
            Some((r1, s1, o1)) => if r1 is Ok {
                step(fns, fuel, scope, s1, o1, v)
            } else {
                Some((r1, s1, o1))
            },
            None => None,
        },
    decreases items.len(),
{
    if items.len() == 0 {
        assert(items.push(v)[0] == v);
        assert(items.push(v).drop_first() =~= Seq::<Any>::empty());
        let e = Seq::<Any>::empty();
        assert(simple_run(fns, fuel, scope, s, o, items) == Some::<(Result<(), EvalError>, Seq<Any>, Seq<char>)>((Ok(()), s, o)));
        match step(fns, fuel, scope, s, o, v) {
            Some((r0, s0, o0)) => {
                assert(simple_run(fns, fuel, scope, s0, o0, e) == Some::<
                    (Result<(), EvalError>, Seq<Any>, Seq<char>),
                >((Ok(()), s0, o0)));
                if r0 is Ok {
                    let u = r0->Ok_0;
                    assert(u == ());
                }
                assert(simple_run(fns, fuel, scope, s, o, items.push(v)) == step(fns, fuel, scope, s, o, v));
            },
            None => {
                assert(simple_run(fns, fuel, scope, s, o, items.push(v)) is None);
            },
        }
    } else {
        assert(items.push(v).drop_first() =~= items.drop_first().push(v));
        assert(items.push(v)[0] == items[0]);
        match step(fns, fuel, scope, s, o, items[0]) {
            Some((r0, s0, o0)) => if r0 is Ok {
                lemma_simple_run_push(fns, fuel, scope, s0, o0, items.drop_first(), v);
            },
            None => {},
        }
    }
}

/// Adding scopes changes nothing that evaluation was stated to do.
pub proof fn lemma_step_adds_scopes(
    a: Functions<Function>,
    b: Functions<Function>,
    fuel: nat,
    scope: Scope,
    s: Seq<Any>,
    o: Seq<char>,
    v: Any,
)
    requires
        b.adds_scopes_to(&a),
        a.valid(scope),
        step(a, fuel, scope, s, o, v) is Some,
    ensures
        step(b, fuel, scope, s, o, v) == step(a, fuel, scope, s, o, v),
    decreases fuel, 1int,
{
    match v.kind {
        Kind::Word(w) => {
            crate::functions::lemma_added_scopes_resolve(&a, &b, scope, w@, stack_types(s));
            match a.resolve(scope, w@, stack_types(s)) {
                Some(Function::Builtin(bi)) => {
                    lemma_builtin_step_adds_scopes(a, b, fuel, bi, s, o, v.span);
                },
                Some(Function::UserDefined { body }) => {
                    if fuel > 0 {
                        lemma_simple_run_adds_scopes(a, b, (fuel - 1) as nat, body.scope, s, o, body.items@);
                    }
                },
                None => {},
            }
        },
        _ => {},
    }
}

/// Adding scopes changes nothing that a builtin was stated to do.
pub proof fn lemma_builtin_step_adds_scopes(
    a: Functions<Function>,
    b: Functions<Function>,
    fuel: nat,
    bi: Builtin,
    s: Seq<Any>,
    o: Seq<char>,
    op: Option<Span>,
)
    requires
        b.adds_scopes_to(&a),
        builtin_step(a, fuel, bi, s, o, op) is Some,
    ensures
        builtin_step(b, fuel, bi, s, o, op) == builtin_step(a, fuel, bi, s, o, op),
    decreases fuel, 0int,
{
    if fuel > 0 {
        match bi {
            Builtin::Dig => match cast2(s, Type::Any, Type::List) {
                Ok((item, l)) => {
                    let inner = l.kind->List_0;
                    lemma_simple_run_adds_scopes(a, b, (fuel - 1) as nat, inner.scope, after_pop2(s), o, inner.items@);
                },
                Err(_) => {},
            },
            Builtin::If => match cast2(s, Type::List, Type::List) {
                Ok((function, condition)) => {
                    let f = function.kind->List_0;
                    let c = condition.kind->List_0;
                    lemma_simple_run_adds_scopes(a, b, (fuel - 1) as nat, c.scope, after_pop2(s), o, c.items@);
                    match simple_run(a, (fuel - 1) as nat, c.scope, after_pop2(s), o, c.items@) {
                        Some((r1, s1, o1)) => {
                            if r1 is Ok && cast1(s1, Type::Bool) is Ok && cast1(s1, Type::Bool)->Ok_0.kind == Kind::Bool(true) && a.valid(f.scope) {
                                lemma_simple_run_adds_scopes(a, b, (fuel - 1) as nat, f.scope, s1.drop_last(), o1, f.items@);
                            }
                        },
                        None => {},
                    }
                },
                Err(_) => {},
            },
            _ => {},
        }
    }
}

/// Adding scopes changes nothing that a run of items was stated to do.
pub proof fn lemma_simple_run_adds_scopes(
    a: Functions<Function>,
    b: Functions<Function>,
    fuel: nat,
    scope: Scope,
    s: Seq<Any>,
    o: Seq<char>,
    items: Seq<Any>,
)
    requires
        b.adds_scopes_to(&a),
        a.valid(scope),
        simple_run(a, fuel, scope, s, o, items) is Some,
    ensures
        simple_run(b, fuel, scope, s, o, items) == simple_run(a, fuel, scope, s, o, items),
    decreases fuel, items.len() + 2,
{
    if items.len() > 0 {
        lemma_step_adds_scopes(a, b, fuel, scope, s, o, items[0]);
        match step(a, fuel, scope, s, o, items[0]) {
            Some((r0, s0, o0)) => if r0 is Ok {
                lemma_simple_run_adds_scopes(a, b, fuel, scope, s0, o0, items.drop_first());
            },
            None => {},
        }
    }
}

/// Whether `mid` is `before` with its stack down to `vals`, its frames
/// aside.
pub open spec fn popped(before: Interpreter, mid: Interpreter, vals: Seq<Any>) -> bool {
    &&& mid.values() == vals
    &&& mid.bases() == clamp_bases(before.bases(), vals.len() as int)
    &&& mid.fns() == before.fns()
    &&& mid.out() == before.out()
    &&& mid.modules() == before.modules()
    &&& mid.texts() == before.texts()
    &&& mid.limit() == before.limit()
}

/// Whether `after` is `end` with `v` pushed, its frames aside.
pub open spec fn pushed_onto(end: Interpreter, after: Interpreter, v: Any) -> bool {
    &&& after.values() == end.values().push(v)
    &&& after.bases() == end.bases()
    &&& after.fns() == end.fns()
    &&& after.out() == end.out()
    &&& after.modules() == end.modules()
    &&& after.texts() == end.texts()
    &&& after.limit() == end.limit()
}

/// What `caller` did from `before` to `after`, with the result `r`, where
/// `frames` were the frames of the call stack, its own last: it pushes the
/// scope and span of the frame below its own.
pub open spec fn caller_outcome(before: Interpreter, after: Interpreter, frames: Seq<StackFrame>, r: Result<(), EvalError>) -> bool {
    &&& after.fns() == before.fns()
    &&& after.out() == before.out()
    &&& frames.len() < 2 ==> r == Err::<(), EvalError>(EvalError::Caller) && after.values() == before.values()
    &&& frames.len() >= 2 ==> r is Ok && {
        let f = frames[frames.len() - 2];
        after.values() == before.values().push(Any { kind: Kind::Scope(f.scope), span: f.span })
    }
}

/// What `to_list`, called in `scope` by a word at `op`, did from `before`
/// to `after`, with the result `r`: it turns a symbol into a list of one
/// word, in a new scope below `scope`.
pub open spec fn to_list_outcome(before: Interpreter, after: Interpreter, scope: Scope, op: Option<Span>, r: Result<(), EvalError>) -> bool {
    &&& after.out() == before.out()
    &&& after.fns().extends(&before.fns())
    &&& cast1(before.values(), Type::Symbol) matches Err(e) ==> r == Err::<(), EvalError>(e)
        && after.values() == after_pop1(before.values())
    &&& cast1(before.values(), Type::Symbol) matches Ok(sym) ==> r is Ok && {
        let vals = after.values();
        &&& vals.drop_last() =~= before.values().drop_last()
        &&& vals.len() == before.values().len()
        &&& vals.last().kind is List
        &&& (vals.last().kind->List_0).items@.len() == 1
        &&& (vals.last().kind->List_0).items@[0].kind == Kind::Word(sym.kind->Symbol_0)
        &&& (vals.last().kind->List_0).items@[0].span == sym.span
        &&& (vals.last().kind->List_0).scope.0 == before.fns().scope_count()
        &&& after.fns().parent_of((vals.last().kind->List_0).scope) == Some(scope)
        &&& vals.last().span == opt_span_merge(op, sym.span)
    }
}

/// What `wrap`, called in `scope` by a word at `op`, did from `before` to
/// `after`, with the result `r`: it puts the topmost value into a list of
/// its own, in a new scope below `scope`.
pub open spec fn wrap_outcome(before: Interpreter, after: Interpreter, scope: Scope, op: Option<Span>, r: Result<(), EvalError>) -> bool {
    &&& after.out() == before.out()
    &&& after.fns().extends(&before.fns())
    &&& before.values().len() == 0 ==> r == Err::<(), EvalError>(EvalError::Stack(stack::Error::StackEmpty))
        && after.values() == before.values()
    &&& before.values().len() > 0 ==> r is Ok && {
        let v = before.values().last();
        let vals = after.values();
        &&& vals.drop_last() =~= before.values().drop_last()
        &&& vals.len() == before.values().len()
        &&& vals.last().kind is List
        &&& (vals.last().kind->List_0).items@ =~= seq![v]
        &&& (vals.last().kind->List_0).scope.0 == before.fns().scope_count()
        &&& after.fns().parent_of((vals.last().kind->List_0).scope) == Some(scope)
        &&& vals.last().span == opt_span_merge(op, v.span)
    }
}

/// The span of `span` merged with those of `vals`, from the top down.
pub open spec fn merge_down(span: Option<Span>, vals: Seq<Any>) -> Option<Span>
    decreases vals.len(),
{
    if vals.len() == 0 {
        span
    } else {
        merge_down(opt_span_merge(span, vals.last().span), vals.drop_last())
    }
}

/// What `list`, called in `scope`, did from `before` to `after`, with the
/// result `r`: it takes a number n and puts the n values below it into a
/// list, in a new scope below `scope`.
pub open spec fn list_outcome(before: Interpreter, after: Interpreter, scope: Scope, r: Result<(), EvalError>) -> bool {
    &&& after.out() == before.out()
    &&& after.fns().extends(&before.fns())
    &&& cast1(before.values(), Type::Number) matches Err(e) ==> r == Err::<(), EvalError>(e)
        && after.values() == after_pop1(before.values())
    &&& cast1(before.values(), Type::Number) matches Ok(len) ==> {
        let s = before.values().drop_last();
        let n = (len.kind->Number_0) as int;
        &&& s.len() < n ==> r == Err::<(), EvalError>(EvalError::Stack(stack::Error::StackEmpty))
            && after.values() =~= Seq::<Any>::empty()
        &&& s.len() >= n ==> r is Ok && {
            let vals = after.values();
            let items = s.skip(s.len() - n);
            &&& vals.drop_last() =~= s.take(s.len() - n)
            &&& vals.len() == s.len() - n + 1
            &&& vals.last().kind is List
            &&& (vals.last().kind->List_0).items@ =~= items
            &&& (vals.last().kind->List_0).scope.0 == before.fns().scope_count()
            &&& after.fns().parent_of((vals.last().kind->List_0).scope) == Some(scope)
            &&& vals.last().span == merge_down(len.span, items)
        }
    }
}

/// Whether `v` is a list of `items`, evaluated in `scope`, covering `span`.
pub open spec fn is_list_of(v: Any, items: Seq<Any>, scope: Scope, span: Option<Span>) -> bool {
    &&& v.kind matches Kind::List(l)
    &&& l.items@ == items
    &&& l.scope == scope
    &&& v.span == span
}

/// What `prepend` (`at_start`) or `append`, called by a word at `op`, did
/// from `before` to `after`, with the result `r`: it adds the topmost value
/// to the list below it, at its start or its end.
pub open spec fn extend_outcome(before: Interpreter, after: Interpreter, at_start: bool, op: Option<Span>, r: Result<(), EvalError>) -> bool {
    &&& after.fns() == before.fns()
    &&& after.out() == before.out()
    &&& cast2(before.values(), Type::List, Type::Any) matches Err(e) ==> r == Err::<(), EvalError>(e)
        && after.values() == after_pop2(before.values())
    &&& cast2(before.values(), Type::List, Type::Any) matches Ok((l, a)) ==> r is Ok && {
        let inner = l.kind->List_0;
        let items = if at_start { seq![a] + inner.items@ } else { inner.items@.push(a) };
        let span = opt_span_merge(opt_span_merge(op, l.span), a.span);
        let vals = after.values();
        &&& vals.drop_last() == after_pop2(before.values())
        &&& vals.len() == before.values().len() - 1
        &&& is_list_of(vals.last(), items, inner.scope, span)
    }
}

/// What `define`, called in `scope`, did from `before` to `after`, with the
/// result `r`: it takes a list and a symbol, and defines the list under the
/// symbol, without arguments, unless that conflicts with a definition there.
pub open spec fn define_outcome(before: Interpreter, after: Interpreter, scope: Scope, r: Result<(), EvalError>) -> bool {
    &&& after.values() == after_pop2(before.values())
    &&& after.out() == before.out()
    &&& after.fns().extends(&before.fns())
    &&& match cast2(before.values(), Type::List, Type::Symbol) {
        Err(e) => r == Err::<(), EvalError>(e) && after.fns() == before.fns(),
        Ok((body, name)) => {
            let n = name.kind->Symbol_0@;
            &&& (r is Err <==> crate::functions::define_conflicts(before.fns().node_of(scope, n), Seq::empty()) is Some)
            &&& (r is Err ==> (r matches Err(EvalError::DefineFunction(e)) && e.name@ == n && after.fns() == before.fns()))
            &&& (r is Ok ==> forall|tys: Seq<Type>| #[trigger] after.fns().lookup_in(scope, n, tys)
                == Some(Function::UserDefined { body: body.kind->List_0 }))
        },
    }
}

/// `define` with a list below a symbol on top of the stack, where the scope
/// does not define the symbol's name yet, succeeds, takes both, and the list
/// is then found under the name for every stack; where the scope defines the
/// name already, it fails with a definition error and defines nothing.
pub proof fn law_define_defines(
    before: Interpreter,
    after: Interpreter,
    scope: Scope,
    r: Result<(), EvalError>,
    rest: Seq<Any>,
    body: Any,
    name: Any,
)
    requires
        define_outcome(before, after, scope, r),
        body.kind is List,
        name.kind is Symbol,
        before.values() == rest.push(body).push(name),
    ensures
        before.fns().node_of(scope, name.kind->Symbol_0@) is None ==> {
            &&& r is Ok
            &&& after.values() == rest
            &&& forall|tys: Seq<Type>| #[trigger] after.fns().lookup_in(scope, name.kind->Symbol_0@, tys)
                == Some(Function::UserDefined { body: body.kind->List_0 })
        },
        before.fns().node_of(scope, name.kind->Symbol_0@) is Some ==> (r matches Err(
            EvalError::DefineFunction(e),
        ) && e.name@ == name.kind->Symbol_0@ && after.fns() == before.fns()),
{
    let s = before.values();
    assert(s[s.len() - 2] == body);
    assert(s[s.len() - 1] == name);
    assert(after_pop2(s) =~= rest);
}

/// What `define` with a scope did from `before` to `after`, with the result
/// `r`: it takes a list, a symbol and a scope, and defines the list under
/// the symbol, without arguments, in that scope.
pub open spec fn define_in_scope_outcome(before: Interpreter, after: Interpreter, r: Result<(), EvalError>) -> bool {
    &&& after.out() == before.out()
    &&& after.fns().extends(&before.fns())
    &&& cast3(before.values(), Type::List, Type::Symbol, Type::Scope) matches Err(e) ==> r == Err::<(), EvalError>(e)
        && after.fns() == before.fns()
    &&& cast3(before.values(), Type::List, Type::Symbol, Type::Scope) matches Ok((body, name, sc)) ==> {
        let n = name.kind->Symbol_0@;
        let s = sc.kind->Scope_0;
        &&& after.values() == before.values().take(before.values().len() - 3)
        &&& (!before.fns().valid(s) ==> r == Err::<(), EvalError>(EvalError::InvalidScope))
        &&& (before.fns().valid(s) ==> {
            &&& (r is Err <==> crate::functions::define_conflicts(before.fns().node_of(s, n), Seq::empty()) is Some)
            &&& (r is Ok ==> forall|tys: Seq<Type>| #[trigger] after.fns().lookup_in(s, n, tys)
                == Some(Function::UserDefined { body: body.kind->List_0 }))
        })
    }
}

/// The state of a reader at the start of `bytes`.
pub open spec fn initial_state(bytes: Seq<u8>) -> crate::reader::ReaderState {
    crate::reader::ReaderState {
        input: bytes,
        cursor: 0,
        done: false,
        next_pos: crate::source::Position { line: 0, column: 0, index: 0 },
    }
}

/// Whether `v` is the list of a module whose expressions parse as `views`: its
/// items are the values of expressions that are those, evaluated in `scope`,
/// and it covers the first expression to the last.
pub open spec fn module_list(v: Any, views: Seq<ExprView>, scope: Scope) -> bool {
    &&& v.kind is List
    &&& (v.kind->List_0).items@.len() == views.len()
    &&& exists|es: Seq<Expression>| #![trigger es.len()]
        es.len() == views.len() && forall|i: int| 0 <= i < es.len() ==> {
            &&& #[trigger] expr_matches(es[i], views[i])
            &&& value_of_expr((v.kind->List_0).items@[i], es[i], scope)
        }
    &&& v.span == if views.len() > 0 { opt_span_merge(views[0].span, views.last().span) } else { None }
}

/// What `load`, called in `scope`, did from `before` to `after`, with the
/// result `r`: it takes the name of a module and pushes the module's
/// expressions as a list, in a new scope below `scope`.
pub open spec fn load_outcome(before: Interpreter, after: Interpreter, scope: Scope, r: Result<(), EvalError>) -> bool {
    &&& cast1(before.values(), Type::String) matches Err(e) ==> r == Err::<(), EvalError>(e)
        && after.values() == after_pop1(before.values())
    &&& cast1(before.values(), Type::String) matches Ok(p) ==> {
        let name = p.kind->String_0;
        let v = after.values().last();
        &&& (r matches Err(EvalError::ModuleNotFound(_)) <==> !exists|i: int|
            0 <= i < before.modules().len() && (#[trigger] before.modules()[i]).0@ == name@)
        &&& (r is Ok ==> after.values().drop_last() == after_pop1(before.values()) && v.kind is List
            && (v.kind->List_0).scope.0 == before.fns().scope_count()
            && after.fns().parent_of((v.kind->List_0).scope) == Some(scope))
        &&& forall|k: int| #![trigger before.modules()[k]] 0 <= k < before.modules().len()
            && before.modules()[k].0@ == name@ && (forall|j: int| 0 <= j < k ==> (#[trigger] before.modules()[j]).0@ != name@)
            ==> {
            let parsed = parse_all_spec(name, initial_state(before.modules()[k].1@), Seq::empty()).0;
            &&& (r is Ok <==> parsed is Ok)
            &&& (r matches Err(EvalError::Parser(e)) ==> error_matches(e, parsed->Err_0))
            &&& (r is Ok ==> module_list(v, parsed->Ok_0, (v.kind->List_0).scope))
        }
    }
}

/// Where the topmost substack of a state's stack begins.
pub open spec fn top_base(i: Interpreter) -> int {
    if i.bases().len() == 0 { 0 } else { i.bases().last() }
}

/// How `eval`, running with the call stack `frames`, goes from `before` to
/// `after`: it takes the list `l` and opens a substack to reach `mid`; the
/// list's evaluation ends in `end`; where that succeeded, the topmost
/// substack is closed and its values pushed as a list in a new scope below
/// `scope`.
pub open spec fn eval_frame(
    before: Interpreter,
    mid: Interpreter,
    end: Interpreter,
    after: Interpreter,
    l: Any,
    frames: Seq<StackFrame>,
    scope: Scope,
    op: Option<Span>,
    r: Result<(), EvalError>,
) -> bool {
    let s = before.values().drop_last();
    &&& mid.values() == s
    &&& mid.bases() == clamp_bases(before.bases(), s.len() as int).push(s.len() as int)
    &&& mid.fns() == before.fns()
    &&& mid.out() == before.out()
    &&& mid.modules() == before.modules()
    &&& mid.texts() == before.texts()
    &&& mid.limit() == before.limit()
    &&& mid.frames() == frames
    &&& (r is Err ==> same_but_frames(after, end))
    &&& (r is Ok ==> {
        let m = top_base(end);
        let vals = after.values();
        let list = vals.last().kind->List_0;
        &&& vals.drop_last() =~= end.values().take(m)
        &&& vals.last().kind is List
        &&& list.items@ =~= end.values().skip(m)
        &&& list.scope.0 == end.fns().scope_count()
        &&& after.fns().adds_scopes_to(&end.fns())
        &&& after.fns().scope_count() == end.fns().scope_count() + 1
        &&& after.fns().parent_of(list.scope) == Some(scope)
        &&& vals.last().span == opt_span_merge(op, l.span)
        &&& after.bases() == if end.bases().len() == 0 { end.bases() } else { end.bases().drop_last() }
        &&& after.out() == end.out()
        &&& after.modules() == end.modules()
        &&& after.texts() == end.texts()
        &&& after.limit() == end.limit()
    })
}

/// What `eval`, called in `scope` by a word at `op`, running with the call
/// stack `frames` and `fuel` for the evaluation, did from `before` to
/// `after`, with the result `r`: it takes a list, evaluates it on a substack
/// of its own, and pushes a list of what the substack holds after, in a new
/// scope below `scope`. A list that took values from below its substack
/// leaves the substack starting that much lower. The evaluation is stated
/// as `list_evaluation` states it, and as `simple_run` states it where that
/// does.
pub open spec fn eval_outcome(
    before: Interpreter,
    after: Interpreter,
    frames: Seq<StackFrame>,
    fuel: nat,
    scope: Scope,
    op: Option<Span>,
    r: Result<(), EvalError>,
) -> bool
    decreases fuel, 1int,
{
    &&& cast1(before.values(), Type::List) matches Err(e) ==> r == Err::<(), EvalError>(e)
        && after.values() == after_pop1(before.values())
    &&& cast1(before.values(), Type::List) is Ok && fuel == 0 ==> r == Err::<(), EvalError>(EvalError::RecursionLimit)
        && after.values() == after_pop1(before.values())
    &&& fuel > 0 ==> match cast1(before.values(), Type::List) {
        Ok(l) => {
            let inner = l.kind->List_0;
            let s = before.values().drop_last();
            let run = simple_run(before.fns(), (fuel - 1) as nat, inner.scope, s, before.out(), inner.items@);
            let m = lesser(s.len() as int, run_low(before.fns(), (fuel - 1) as nat, inner.scope, s, before.out(), inner.items@));
            before.fns().valid(inner.scope) ==> match run {
                Some((r1, s1, o1)) => {
                    &&& after.out() == o1
                    &&& (r1 is Err ==> r == r1 && after.values() == s1 && after.fns() == before.fns())
                    &&& (r1 is Ok ==> r is Ok && {
                        let vals = after.values();
                        &&& after.fns().adds_scopes_to(&before.fns())
                        &&& vals.drop_last() =~= s1.take(m)
                        &&& vals.last().kind is List
                        &&& (vals.last().kind->List_0).items@ =~= s1.skip(m)
                        &&& (vals.last().kind->List_0).scope.0 == before.fns().scope_count()
                        &&& after.fns().parent_of((vals.last().kind->List_0).scope) == Some(scope)
                        &&& vals.last().span == opt_span_merge(op, l.span)
                    })
                },
                None => true,
            }
        },
        Err(_) => true,
    }
    &&& fuel > 0 ==> match cast1(before.values(), Type::List) {
        Ok(l) => exists|mid: Interpreter, end: Interpreter|
            #![trigger eval_frame(before, mid, end, after, l, frames, scope, op, r)]
            {
            &&& eval_frame(before, mid, end, after, l, frames, scope, op, r)
            &&& list_evaluation(mid, end, l.kind->List_0, (fuel - 1) as nat, r)
        },
        Err(_) => true,
    }
}

/// Evaluating the list `f` once for each of `items`, each time with the
/// item pushed, on the stack `s` with the output `o`, up to the first error,
/// where `simple_run` states each evaluation.
pub open spec fn map_run(fns: Functions<Function>, fuel: nat, f: ListInner, s: Seq<Any>, o: Seq<char>, items: Seq<Any>) -> Option<
    (Result<(), EvalError>, Seq<Any>, Seq<char>),
>
    decreases items.len(),
{
    if items.len() == 0 {
        Some((Ok(()), s, o))
    } else if !fns.valid(f.scope) {
        None
    } else {
        match simple_run(fns, fuel, f.scope, s.push(items[0]), o, f.items@) {
            Some((r1, s1, o1)) => if r1 is Err {
                Some((r1, s1, o1))
            } else {
                map_run(fns, fuel, f, s1, o1, items.drop_first())
            },
            None => None,
        }
    }
}

/// The fewest values the stack held during `map_run`.
pub open spec fn map_low(fns: Functions<Function>, fuel: nat, f: ListInner, s: Seq<Any>, o: Seq<char>, items: Seq<Any>) -> int
    decreases items.len(),
{
    if items.len() == 0 || !fns.valid(f.scope) {
        s.len() as int
    } else {
        let l1 = run_low(fns, fuel, f.scope, s.push(items[0]), o, f.items@);
        match simple_run(fns, fuel, f.scope, s.push(items[0]), o, f.items@) {
            Some((r1, s1, o1)) => if r1 is Err {
                lesser(s.len() as int, l1)
            } else {
                lesser(s.len() as int, lesser(l1, map_low(fns, fuel, f, s1, o1, items.drop_first())))
            },
            None => lesser(s.len() as int, l1),
        }
    }
}

/// Whether `starts` and `ends` are the states that `map` passes through from
/// `mid`: before each evaluation of `f`, the item is pushed onto where the
/// evaluation before ended (onto `mid` for the first), and each evaluation
/// ends with its result; every result but the last is success.
pub open spec fn map_trace(
    mid: Interpreter,
    starts: Seq<Interpreter>,
    ends: Seq<Interpreter>,
    results: Seq<Result<(), EvalError>>,
    items: Seq<Any>,
    f: ListInner,
    frames: Seq<StackFrame>,
    fuel: nat,
) -> bool
    decreases fuel, 5int,
{
    &&& starts.len() == results.len()
    &&& ends.len() == results.len()
    &&& results.len() <= items.len()
    &&& forall|j: int| 0 <= j < results.len() ==> pushed_onto(if j == 0 { mid } else { ends[j - 1] }, #[trigger] starts[j], items[j])
        && starts[j].frames() == frames
    &&& forall|j: int| 0 <= j < results.len() ==> list_evaluation(#[trigger] starts[j], ends[j], f, fuel, results[j])
    &&& forall|j: int| 0 <= j < results.len() - 1 ==> #[trigger] results[j] == Ok::<(), EvalError>(())
}

/// How `map`, running with the call stack `frames`, goes from `before` to
/// `after` around the evaluations that `map_trace` states: it takes the
/// lists and opens a substack to reach `mid`; where an evaluation failed,
/// that is where it ends; else the topmost substack is closed and its values
/// pushed as a list in a new scope below the scope of the items' list.
pub open spec fn map_frame(
    before: Interpreter,
    mid: Interpreter,
    starts: Seq<Interpreter>,
    ends: Seq<Interpreter>,
    results: Seq<Result<(), EvalError>>,
    after: Interpreter,
    list: Any,
    function: Any,
    frames: Seq<StackFrame>,
    op: Option<Span>,
    r: Result<(), EvalError>,
) -> bool {
    let s = after_pop2(before.values());
    let l = list.kind->List_0;
    let last = if results.len() == 0 { mid } else { ends.last() };
    let m = top_base(last);
    &&& mid.values() == s
    &&& mid.bases() == clamp_bases(before.bases(), s.len() as int).push(s.len() as int)
    &&& mid.fns() == before.fns()
    &&& mid.out() == before.out()
    &&& mid.modules() == before.modules()
    &&& mid.texts() == before.texts()
    &&& mid.limit() == before.limit()
    &&& mid.frames() == frames
    &&& (results.len() > 0 && results.last() is Err ==> r == results.last() && same_but_frames(after, last))
    &&& (results.len() == l.items@.len() && (results.len() == 0 || results.last() is Ok) ==> {
        &&& after.out() == last.out()
        &&& after.modules() == last.modules()
        &&& after.texts() == last.texts()
        &&& after.limit() == last.limit()
        &&& after.bases() == if last.bases().len() == 0 { last.bases() } else { last.bases().drop_last() }
        &&& (!last.fns().valid(l.scope) ==> r == Err::<(), EvalError>(EvalError::InvalidScope) && after.values()
            =~= last.values().take(m) && after.fns() == last.fns())
        &&& (last.fns().valid(l.scope) ==> r is Ok && {
            let vals = after.values();
            let new = vals.last().kind->List_0;
            &&& vals.drop_last() =~= last.values().take(m)
            &&& vals.last().kind is List
            &&& new.items@ =~= last.values().skip(m)
            &&& new.scope.0 == last.fns().scope_count()
            &&& after.fns().adds_scopes_to(&last.fns())
            &&& after.fns().scope_count() == last.fns().scope_count() + 1
            &&& after.fns().parent_of(new.scope) == Some(l.scope)
            &&& vals.last().span == opt_span_merge(opt_span_merge(op, list.span), function.span)
        })
    })
}

/// A trace of `map` goes on by one more evaluation.
pub proof fn lemma_map_trace_push(
    mid: Interpreter,
    starts: Seq<Interpreter>,
    ends: Seq<Interpreter>,
    results: Seq<Result<(), EvalError>>,
    items: Seq<Any>,
    f: ListInner,
    frames: Seq<StackFrame>,
    fuel: nat,
    start: Interpreter,
    end: Interpreter,
    r: Result<(), EvalError>,
)
    requires
        map_trace(mid, starts, ends, results, items, f, frames, fuel),
        results.len() < items.len(),
        forall|j: int| 0 <= j < results.len() ==> #[trigger] results[j] == Ok::<(), EvalError>(()),
        pushed_onto(if results.len() == 0 { mid } else { ends.last() }, start, items[results.len() as int]),
        start.frames() == frames,
        list_evaluation(start, end, f, fuel, r),
    ensures
        map_trace(mid, starts.push(start), ends.push(end), results.push(r), items, f, frames, fuel),
{
    let s2 = starts.push(start);
    let e2 = ends.push(end);
    let r2 = results.push(r);
    assert forall|j: int| 0 <= j < r2.len() implies pushed_onto(if j == 0 { mid } else { e2[j - 1] }, #[trigger] s2[j], items[j])
        && s2[j].frames() == frames by {
        if j < results.len() {
            assert(s2[j] == starts[j]);
            if j > 0 {
                assert(e2[j - 1] == ends[j - 1]);
            }
        } else {
            assert(s2[j] == start);
            if j > 0 {
                assert(e2[j - 1] == ends.last());
            }
        }
    }
    assert forall|j: int| 0 <= j < r2.len() implies list_evaluation(#[trigger] s2[j], e2[j], f, fuel, r2[j]) by {
        if j < results.len() {
            assert(s2[j] == starts[j]);
            assert(e2[j] == ends[j]);
            assert(r2[j] == results[j]);
        }
    }
    assert forall|j: int| 0 <= j < r2.len() - 1 implies #[trigger] r2[j] == Ok::<(), EvalError>(()) by {
        assert(r2[j] == results[j]);
    }
}

/// What `map`, called by a word at `op`, running with the call stack
/// `frames` and `fuel` for the evaluations, did from `before` to `after`,
/// with the result `r`: it takes a list of items and a list `f`, evaluates
/// `f` once for every item, with the item pushed, on a substack of its own,
/// and pushes a list of what the substack holds after, in a new scope below
/// the scope of the items' list. The evaluations are stated as
/// `list_evaluation` states them, and as `simple_run` states them where that
/// does.
pub open spec fn map_outcome(
    before: Interpreter,
    after: Interpreter,
    frames: Seq<StackFrame>,
    fuel: nat,
    op: Option<Span>,
    r: Result<(), EvalError>,
) -> bool
    decreases fuel, 1int,
{
    &&& cast2(before.values(), Type::List, Type::List) matches Err(e) ==> r == Err::<(), EvalError>(e)
        && after.values() == after_pop2(before.values())
    &&& cast2(before.values(), Type::List, Type::List) is Ok && fuel == 0 ==> r == Err::<(), EvalError>(
        EvalError::RecursionLimit,
    ) && after.values() == after_pop2(before.values())
    &&& fuel > 0 ==> match cast2(before.values(), Type::List, Type::List) {
        Ok((list, function)) => {
            let l = list.kind->List_0;
            let f = function.kind->List_0;
            let s = after_pop2(before.values());
            let run = map_run(before.fns(), (fuel - 1) as nat, f, s, before.out(), l.items@);
            let m = lesser(s.len() as int, map_low(before.fns(), (fuel - 1) as nat, f, s, before.out(), l.items@));
            match run {
                Some((r1, s1, o1)) => {
                    &&& after.out() == o1
                    &&& (r1 is Err ==> r == r1 && after.values() == s1 && after.fns() == before.fns())
                    &&& (r1 is Ok && !before.fns().valid(l.scope) ==> r == Err::<(), EvalError>(EvalError::InvalidScope)
                        && after.values() =~= s1.take(m))
                    &&& (r1 is Ok && before.fns().valid(l.scope) ==> r is Ok && {
                        let vals = after.values();
                        &&& after.fns().adds_scopes_to(&before.fns())
                        &&& vals.drop_last() =~= s1.take(m)
                        &&& vals.last().kind is List
                        &&& (vals.last().kind->List_0).items@ =~= s1.skip(m)
                        &&& (vals.last().kind->List_0).scope.0 == before.fns().scope_count()
                        &&& after.fns().parent_of((vals.last().kind->List_0).scope) == Some(l.scope)
                        &&& vals.last().span == opt_span_merge(opt_span_merge(op, list.span), function.span)
                    })
                },
                None => true,
            }
        },
        Err(_) => true,
    }
    &&& fuel > 0 ==> match cast2(before.values(), Type::List, Type::List) {
        Ok((list, function)) => exists|
            mid: Interpreter,
            starts: Seq<Interpreter>,
            ends: Seq<Interpreter>,
            results: Seq<Result<(), EvalError>>,
        |
            #![trigger map_frame(before, mid, starts, ends, results, after, list, function, frames, op, r)]
            {
            &&& map_frame(before, mid, starts, ends, results, after, list, function, frames, op, r)
            &&& map_trace(mid, starts, ends, results, list.kind->List_0.items@, function.kind->List_0, frames, (fuel - 1) as nat)
        },
        Err(_) => true,
    }
}

/// How `dig`, running with the call stack `frames`, goes from `before` to
/// `after`: it takes a value and a list to reach `mid`, the list's
/// evaluation ends in `end`, and then the value is put back where that
/// succeeded.
pub open spec fn dig_frame(
    before: Interpreter,
    mid: Interpreter,
    end: Interpreter,
    after: Interpreter,
    item: Any,
    frames: Seq<StackFrame>,
    r: Result<(), EvalError>,
) -> bool {
    &&& popped(before, mid, after_pop2(before.values()))
    &&& mid.frames() == frames
    &&& (r is Err ==> same_but_frames(after, end))
    &&& (r is Ok ==> pushed_onto(end, after, item))
}

/// What `dig`, running with the call stack `frames` and `fuel` for the
/// evaluation, did from `before` to `after`, with the result `r`: it takes a
/// value and a list above it, evaluates the list, and puts the value back on
/// top.
pub open spec fn dig_outcome(before: Interpreter, after: Interpreter, frames: Seq<StackFrame>, fuel: nat, r: Result<(), EvalError>) -> bool
    decreases fuel, 1int,
{
    &&& cast2(before.values(), Type::Any, Type::List) matches Err(e) ==> r == Err::<(), EvalError>(e)
        && after.values() == after_pop2(before.values())
    &&& cast2(before.values(), Type::Any, Type::List) is Ok && fuel == 0 ==> r == Err::<(), EvalError>(
        EvalError::RecursionLimit,
    ) && after.values() == after_pop2(before.values())
    &&& fuel > 0 ==> match cast2(before.values(), Type::Any, Type::List) {
        Ok((item, l)) => exists|mid: Interpreter, end: Interpreter|
            #![trigger dig_frame(before, mid, end, after, item, frames, r)]
            {
            &&& dig_frame(before, mid, end, after, item, frames, r)
            &&& list_evaluation(mid, end, l.kind->List_0, (fuel - 1) as nat, r)
        },
        Err(_) => true,
    }
}

/// How `if`, running with the call stack `frames`, goes from `before` to
/// `after`: it takes a list and a condition list to reach `mid`; the
/// condition's evaluation ends in `end1` with `r1`; where that succeeded, it
/// takes the boolean the condition left to reach `mid2`, and where that is
/// `true` the list's evaluation ends in `end2`.
pub open spec fn if_frame(
    before: Interpreter,
    mid: Interpreter,
    end1: Interpreter,
    mid2: Interpreter,
    end2: Interpreter,
    after: Interpreter,
    frames: Seq<StackFrame>,
    r1: Result<(), EvalError>,
    r: Result<(), EvalError>,
) -> bool {
    &&& popped(before, mid, after_pop2(before.values()))
    &&& mid.frames() == frames
    &&& (r1 is Err ==> r == r1 && same_but_frames(after, end1))
    &&& (r1 is Ok ==> {
        &&& popped(end1, mid2, after_pop1(end1.values()))
        &&& mid2.frames() == frames
        &&& match cast1(end1.values(), Type::Bool) {
            Err(e) => r == Err::<(), EvalError>(e) && same_but_frames(after, mid2),
            Ok(cond) => if cond.kind == Kind::Bool(true) {
                same_but_frames(after, end2)
            } else {
                r == Ok::<(), EvalError>(()) && same_but_frames(after, mid2)
            },
        }
    })
}

/// What `if`, running with the call stack `frames` and `fuel` for the
/// evaluations, did from `before` to
/// `after`, with the result `r`: it takes a list and a condition list above
/// it, evaluates the condition, takes the boolean it left, and where that is
/// `true` evaluates the list.
pub open spec fn if_outcome(before: Interpreter, after: Interpreter, frames: Seq<StackFrame>, fuel: nat, r: Result<(), EvalError>) -> bool
    decreases fuel, 1int,
{
    &&& cast2(before.values(), Type::List, Type::List) matches Err(e) ==> r == Err::<(), EvalError>(e)
        && after.values() == after_pop2(before.values())
    &&& cast2(before.values(), Type::List, Type::List) is Ok && fuel == 0 ==> r == Err::<(), EvalError>(
        EvalError::RecursionLimit,
    ) && after.values() == after_pop2(before.values())
    &&& fuel > 0 ==> match cast2(before.values(), Type::List, Type::List) {
        Ok((function, condition)) => exists|
            mid: Interpreter,
            end1: Interpreter,
            mid2: Interpreter,
            end2: Interpreter,
            r1: Result<(), EvalError>,
        |
            #![trigger if_frame(before, mid, end1, mid2, end2, after, frames, r1, r)]
            {
            &&& if_frame(before, mid, end1, mid2, end2, after, frames, r1, r)
            &&& list_evaluation(mid, end1, condition.kind->List_0, (fuel - 1) as nat, r1)
            &&& (r1 is Ok && cast1(end1.values(), Type::Bool) is Ok && cast1(end1.values(), Type::Bool)->Ok_0.kind
                == Kind::Bool(true) ==> list_evaluation(mid2, end2, function.kind->List_0, (fuel - 1) as nat, r))
        },
        Err(_) => true,
    }
}

/// What `dig` and `if` did does not depend on the frames of the states
/// before and after, only on the frames they ran with.
pub proof fn lemma_nested_outcomes_ignore_frames(
    b1: Interpreter,
    a1: Interpreter,
    b2: Interpreter,
    a2: Interpreter,
    frames: Seq<StackFrame>,
    fuel: nat,
    r: Result<(), EvalError>,
)
    requires
        same_but_frames(b1, b2),
        same_but_frames(a1, a2),
    ensures
        forall|op: Option<Span>| #[trigger] map_outcome(b1, a1, frames, fuel, op, r) ==> map_outcome(b2, a2, frames, fuel, op, r),
        dig_outcome(b1, a1, frames, fuel, r) ==> dig_outcome(b2, a2, frames, fuel, r),
        if_outcome(b1, a1, frames, fuel, r) ==> if_outcome(b2, a2, frames, fuel, r),
        forall|scope: Scope, op: Option<Span>| #[trigger] eval_outcome(b1, a1, frames, fuel, scope, op, r) ==> eval_outcome(
            b2,
            a2,
            frames,
            fuel,
            scope,
            op,
            r,
        ),
{
    assert forall|op: Option<Span>| #[trigger] map_outcome(b1, a1, frames, fuel, op, r) implies map_outcome(
        b2,
        a2,
        frames,
        fuel,
        op,
        r,
    ) by {
        if fuel > 0 {
            match cast2(b1.values(), Type::List, Type::List) {
                Ok((list, function)) => {
                    let (mid, starts, ends, results) = choose|
                        mid: Interpreter,
                        starts: Seq<Interpreter>,
                        ends: Seq<Interpreter>,
                        results: Seq<Result<(), EvalError>>,
                    |
                        #![trigger map_frame(b1, mid, starts, ends, results, a1, list, function, frames, op, r)]
                        {
                        &&& map_frame(b1, mid, starts, ends, results, a1, list, function, frames, op, r)
                        &&& map_trace(mid, starts, ends, results, list.kind->List_0.items@, function.kind->List_0, frames, (fuel - 1) as nat)
                    };
                    assert(map_frame(b2, mid, starts, ends, results, a2, list, function, frames, op, r));
                },
                Err(_) => {},
            }
        }
    }
    assert forall|scope: Scope, op: Option<Span>| #[trigger] eval_outcome(b1, a1, frames, fuel, scope, op, r) implies eval_outcome(
        b2,
        a2,
        frames,
        fuel,
        scope,
        op,
        r,
    ) by {
        if fuel > 0 {
            match cast1(b1.values(), Type::List) {
                Ok(l) => {
                    let (mid, end) = choose|mid: Interpreter, end: Interpreter|
                        #![trigger eval_frame(b1, mid, end, a1, l, frames, scope, op, r)]
                        eval_frame(b1, mid, end, a1, l, frames, scope, op, r) && list_evaluation(mid, end, l.kind->List_0, (fuel - 1) as nat, r);
                    assert(eval_frame(b2, mid, end, a2, l, frames, scope, op, r));
                },
                Err(_) => {},
            }
        }
    }
    if fuel > 0 {
        if dig_outcome(b1, a1, frames, fuel, r) {
            match cast2(b1.values(), Type::Any, Type::List) {
                Ok((item, l)) => {
                    let (mid, end) = choose|mid: Interpreter, end: Interpreter|
                        #![trigger dig_frame(b1, mid, end, a1, item, frames, r)]
                        dig_frame(b1, mid, end, a1, item, frames, r) && list_evaluation(mid, end, l.kind->List_0, (fuel - 1) as nat, r);
                    assert(dig_frame(b2, mid, end, a2, item, frames, r));
                },
                Err(_) => {},
            }
        }
        if if_outcome(b1, a1, frames, fuel, r) {
            match cast2(b1.values(), Type::List, Type::List) {
                Ok((function, condition)) => {
                    let (mid, end1, mid2, end2, r1) = choose|
                        mid: Interpreter,
                        end1: Interpreter,
                        mid2: Interpreter,
                        end2: Interpreter,
                        r1: Result<(), EvalError>,
                    |
                        #![trigger if_frame(b1, mid, end1, mid2, end2, a1, frames, r1, r)]
                        {
                        &&& if_frame(b1, mid, end1, mid2, end2, a1, frames, r1, r)
                        &&& list_evaluation(mid, end1, condition.kind->List_0, (fuel - 1) as nat, r1)
                        &&& (r1 is Ok && cast1(end1.values(), Type::Bool) is Ok && cast1(end1.values(), Type::Bool)->Ok_0.kind
                            == Kind::Bool(true) ==> list_evaluation(mid2, end2, function.kind->List_0, (fuel - 1) as nat, r))
                    };
                    assert(if_frame(b2, mid, end1, mid2, end2, a2, frames, r1, r));
                },
                Err(_) => {},
            }
        }
    }
}

/// What evaluating `value` in `scope`, with `fuel` for the evaluations it
/// nests, did from `before` to `after`, with the result `r`: a value that is
/// no word is pushed; a word that names no function for the types on the
/// stack fails and says which functions the name has; a word that names a
/// builtin does what `step` or the outcome of that builtin states (the
/// builtins of the host aside); and a word that names a function the
/// program defined evaluates its body, as `list_evaluation` states, with
/// its frame on the call stack.
pub open spec fn value_outcome(before: Interpreter, after: Interpreter, scope: Scope, value: Any, fuel: nat, r: Result<(), EvalError>) -> bool
    decreases fuel, 2int,
{
    let found = before.fns().resolve(scope, (value.kind->Word_0)@, stack_types(before.values()));
    &&& after.evolves_from(&before)
    &&& !(value.kind is Word) ==> r is Ok && after.values() == before.values().push(value) && after.fns() == before.fns()
        && after.out() == before.out()
    &&& value.kind is Word && found is None ==> after.values() == before.values() && after.fns() == before.fns()
        && after.out() == before.out() && (match r {
        Err(EvalError::FunctionNotFound { name, stack, candidates, scope: sname }) => {
            &&& name@ == (value.kind->Word_0)@
            &&& stack@ == before.values()
            &&& crate::node::signatures_view(candidates@) == before.fns().candidates(Scope(0), name@)
            &&& sname@ == before.fns().name_of(scope)
        },
        _ => false,
    })
    &&& match step(before.fns(), fuel, scope, before.values(), before.out(), value) {
        Some((r0, s0, o0)) => same_result(r, r0) && after.values() == s0 && after.fns() == before.fns() && after.out() == o0
            && after.bases() == clamp_bases(before.bases(), step_low(before.fns(), fuel, scope, before.values(), before.out(), value)),
        None => true,
    }
    &&& value.kind is Word ==> match found {
        Some(Function::Builtin(b)) => {
            let frames = before.frames().push(StackFrame { scope, span: value.span });
            &&& b is Define ==> define_outcome(before, after, scope, r)
            &&& b is DefineS ==> define_in_scope_outcome(before, after, r)
            &&& b is Caller ==> caller_outcome(before, after, frames, r)
            &&& b is ToList ==> to_list_outcome(before, after, scope, value.span, r)
            &&& b is Wrap ==> wrap_outcome(before, after, scope, value.span, r)
            &&& b is List ==> list_outcome(before, after, scope, r)
            &&& b is Prepend ==> extend_outcome(before, after, true, value.span, r)
            &&& b is Append ==> extend_outcome(before, after, false, value.span, r)
            &&& b is Eval ==> eval_outcome(before, after, frames, fuel, scope, value.span, r)
            &&& b is Load ==> load_outcome(before, after, scope, r)
            &&& b is MapEach ==> map_outcome(before, after, frames, fuel, value.span, r)
            &&& b is Dig ==> dig_outcome(before, after, frames, fuel, r)
            &&& b is If ==> if_outcome(before, after, frames, fuel, r)
            &&& (b matches Builtin::Host(id) ==> host_outcome(before, after, id, value.span))
        },
        Some(Function::UserDefined { body }) => {
            &&& fuel == 0 ==> r == Err::<(), EvalError>(EvalError::RecursionLimit)
            &&& fuel > 0 ==> exists|mid: Interpreter, end: Interpreter|
                #![trigger call_frame(before, mid, end, after, scope, value.span, r)]
                {
                &&& call_frame(before, mid, end, after, scope, value.span, r)
                &&& list_evaluation(mid, end, body, (fuel - 1) as nat, r)
            }
        },
        None => true,
    }
}

/// What a builtin of the host does, as far as the library can see: the host
/// is called with the builtin's id, the stack as it is, and where the word
/// that called it stands; nothing but the stack can change.
pub open spec fn host_outcome(before: Interpreter, after: Interpreter, id: u64, span: Option<Span>) -> bool {
    &&& after.host_calls() == before.host_calls().push((id, before.values(), span))
    &&& after.fns() == before.fns()
    &&& after.out() == before.out()
    &&& after.modules() == before.modules()
    &&& after.texts() == before.texts()
    &&& after.limit() == before.limit()
}

/// Whether two states differ in their frames only.
pub open spec fn same_but_frames(a: Interpreter, b: Interpreter) -> bool {
    &&& a.fns() == b.fns()
    &&& a.values() == b.values()
    &&& a.bases() == b.bases()
    &&& a.out() == b.out()
    &&& a.modules() == b.modules()
    &&& a.texts() == b.texts()
    &&& a.limit() == b.limit()
}

/// Whether `mid` is `before` with the frame of a word at `span` in `scope`
/// pushed, and `after` is `end`, where evaluation from `mid` ended, with the
/// frame taken off again where it succeeded.
pub open spec fn call_frame(
    before: Interpreter,
    mid: Interpreter,
    end: Interpreter,
    after: Interpreter,
    scope: Scope,
    span: Option<Span>,
    r: Result<(), EvalError>,
) -> bool {
    &&& same_but_frames(mid, before)
    &&& mid.frames() == before.frames().push(StackFrame { scope, span })
    &&& (r is Err ==> after == end)
    &&& (r is Ok ==> same_but_frames(after, end) && after.frames() == before.frames())
}

/// Whether `states` are the states that evaluating the first of `items`
/// in `scope`, one after the other, passes through, the value at `j` taking
/// `states[j]` to `states[j + 1]` with the result `results[j]`; every result
/// but the last is success.
pub open spec fn items_trace(
    states: Seq<Interpreter>,
    results: Seq<Result<(), EvalError>>,
    scope: Scope,
    items: Seq<Any>,
    fuel: nat,
) -> bool
    decreases fuel, 3int,
{
    &&& results.len() <= items.len()
    &&& states.len() == results.len() + 1
    &&& forall|j: int| 0 <= j < results.len() ==> value_outcome(#[trigger] states[j], states[j + 1], scope, items[j], fuel, results[j])
    &&& forall|j: int| 0 <= j < results.len() - 1 ==> #[trigger] results[j] == Ok::<(), EvalError>(())
}

/// Whether a trace of `n` items runs from `before` to `after` and ends with
/// `r`: with every item evaluated and success, or at the first failure.
pub open spec fn trace_ends(
    states: Seq<Interpreter>,
    results: Seq<Result<(), EvalError>>,
    before: Interpreter,
    after: Interpreter,
    n: nat,
    r: Result<(), EvalError>,
) -> bool {
    &&& states.len() > 0
    &&& states[0] == before
    &&& states.last() == after
    &&& ((results.len() == n && (results.len() == 0 || results.last() == Ok::<(), EvalError>(()))
        && r == Ok::<(), EvalError>(())) || (results.len() > 0 && results.last() is Err && r == results.last()))
}

/// What evaluating the items of `list` in the list's scope, with `fuel`
/// for each, did from `before` to `after`, with the result `r`: it fails
/// where the scope does not exist, and else evaluates the items one after
/// the other up to the first that fails.
pub open spec fn list_evaluation(before: Interpreter, after: Interpreter, list: ListInner, fuel: nat, r: Result<(), EvalError>) -> bool
    decreases fuel, 4int,
{
    if !before.fns().valid(list.scope) {
        r == Err::<(), EvalError>(EvalError::InvalidScope) && after == before
    } else {
        exists|states: Seq<Interpreter>, results: Seq<Result<(), EvalError>>|
            #![trigger trace_ends(states, results, before, after, list.items@.len(), r)]
            {
            &&& trace_ends(states, results, before, after, list.items@.len(), r)
            &&& items_trace(states, results, list.scope, list.items@, fuel)
        }
    }
}

/// A trace of evaluated items goes on by one more item.
pub proof fn lemma_items_trace_push(
    states: Seq<Interpreter>,
    results: Seq<Result<(), EvalError>>,
    scope: Scope,
    items: Seq<Any>,
    fuel: nat,
    next: Interpreter,
    r: Result<(), EvalError>,
)
    requires
        items_trace(states, results, scope, items, fuel),
        results.len() < items.len(),
        forall|j: int| 0 <= j < results.len() ==> #[trigger] results[j] == Ok::<(), EvalError>(()),
        value_outcome(states.last(), next, scope, items[results.len() as int], fuel, r),
    ensures
        items_trace(states.push(next), results.push(r), scope, items, fuel),
{
    reveal_with_fuel(items_trace, 2);
    let s2 = states.push(next);
    let r2 = results.push(r);
    assert forall|j: int| 0 <= j < r2.len() implies value_outcome(#[trigger] s2[j], s2[j + 1], scope, items[j], fuel, r2[j]) by {
        if j < results.len() {
            assert(s2[j] == states[j]);
            assert(s2[j + 1] == states[j + 1]);
            assert(r2[j] == results[j]);
        } else {
            assert(s2[j] == states.last());
            assert(s2[j + 1] == next);
        }
    }
    assert forall|j: int| 0 <= j < r2.len() - 1 implies #[trigger] r2[j] == Ok::<(), EvalError>(()) by {
        assert(r2[j] == results[j]);
    }
}

/// A trace of the items of a list, from `before` to `after`, that either
/// evaluated them all or stopped at a failure, is an evaluation of the list.
pub proof fn lemma_list_evaluation_intro(
    before: Interpreter,
    after: Interpreter,
    list: ListInner,
    fuel: nat,
    r: Result<(), EvalError>,
    states: Seq<Interpreter>,
    results: Seq<Result<(), EvalError>>,
)
    requires
        before.fns().valid(list.scope),
        items_trace(states, results, list.scope, list.items@, fuel),
        trace_ends(states, results, before, after, list.items@.len(), r),
    ensures
        list_evaluation(before, after, list, fuel, r),
{
}

/// Evaluating values one after the other: the first part runs, and the rest
/// runs from where it left off unless it failed. So a run succeeds exactly
/// when every value in it evaluates, and stops at the first that fails.
pub proof fn law_run_in_parts(
    fns: Functions<Function>,
    fuel: nat,
    scope: Scope,
    s: Seq<Any>,
    o: Seq<char>,
    a: Seq<Any>,
    b: Seq<Any>,
)
    ensures
        simple_run(fns, fuel, scope, s, o, a + b) == match simple_run(fns, fuel, scope, s, o, a) {
            None => None,
            Some((r, s1, o1)) => if r is Err {
                Some((r, s1, o1))
            } else {
                simple_run(fns, fuel, scope, s1, o1, b)
            },
        },
    decreases a.len(),
{
    if a.len() == 0 {
        assert(a + b =~= b);
    } else {
        assert((a + b)[0] == a[0]);
        assert((a + b).drop_first() =~= a.drop_first() + b);
        match step(fns, fuel, scope, s, o, a[0]) {
            Some((r0, s0, o0)) => if r0 is Ok {
                law_run_in_parts(fns, fuel, scope, s0, o0, a.drop_first(), b);
            },
            None => {},
        }
    }
}

/// `+` replaces two numbers on top of the stack by their sum, where it fits,
/// spanning both.
pub proof fn law_add_numbers(rest: Seq<Any>, x: Any, y: Any, op: Option<Span>)
    requires
        x.kind is Number,
        y.kind is Number,
        x.kind->Number_0 + y.kind->Number_0 <= u32::MAX,
    ensures
        pure_effect(Builtin::AddN, rest.push(x).push(y), op) == Some::<(Result<(), EvalError>, Seq<Any>)>(
            (
                Ok(()),
                rest.push(
                    Any {
                        kind: Kind::Number((x.kind->Number_0 + y.kind->Number_0) as u32),
                        span: opt_span_merge(x.span, y.span),
                    },
                ),
            ),
        ),
{
    assert(after_pop2(rest.push(x).push(y)) =~= rest);
}

/// The arithmetic and the comparison on two numbers `a` (below) and `b` (on
/// top): `+`, `-` and `*` push the exact result where it is a `u32` and fail
/// with an overflow where it is not; `/` pushes the quotient rounded down and
/// fails where `b` is zero; `>` pushes whether `a` is strictly greater than
/// `b`. Each takes both numbers and spans both.
pub proof fn law_number_builtins(rest: Seq<Any>, x: Any, y: Any, op: Option<Span>)
    requires
        x.kind is Number,
        y.kind is Number,
    ensures
        ({
            let a = x.kind->Number_0 as int;
            let b = y.kind->Number_0 as int;
            let s = rest.push(x).push(y);
            let span = opt_span_merge(x.span, y.span);
            let number = |n: int| Some::<(Result<(), EvalError>, Seq<Any>)>(
                (Ok(()), rest.push(Any { kind: Kind::Number(n as u32), span })),
            );
            let failed = |e: EvalError| Some::<(Result<(), EvalError>, Seq<Any>)>((Err(e), rest));
            &&& pure_effect(Builtin::AddN, s, op) == if a + b <= u32::MAX {
                number(a + b)
            } else {
                failed(EvalError::Overflow)
            }
            &&& pure_effect(Builtin::SubN, s, op) == if a - b >= 0 {
                number(a - b)
            } else {
                failed(EvalError::Overflow)
            }
            &&& pure_effect(Builtin::MulN, s, op) == if a * b <= u32::MAX {
                number(a * b)
            } else {
                failed(EvalError::Overflow)
            }
            &&& pure_effect(Builtin::DivN, s, op) == if b != 0 {
                number(a / b)
            } else {
                failed(EvalError::DivisionByZero)
            }
            &&& pure_effect(Builtin::GtN, s, op) == Some::<(Result<(), EvalError>, Seq<Any>)>(
                (Ok(()), rest.push(Any { kind: Kind::Bool(a > b), span })),
            )
        }),
{
    assert(after_pop2(rest.push(x).push(y)) =~= rest);
}

/// `>` is strict: a number is never greater than itself, and of two numbers
/// at most one is greater than the other.
pub proof fn law_greater_is_strict(rest: Seq<Any>, x: Any, y: Any, op: Option<Span>)
    requires
        x.kind is Number,
        y.kind is Number,
    ensures
        x.kind == y.kind ==> (pure_effect(Builtin::GtN, rest.push(x).push(y), op) matches Some((
            Ok(()),
            s,
        )) && s.last().kind == Kind::Bool(false)),
        (pure_effect(Builtin::GtN, rest.push(x).push(y), op) matches Some((Ok(()), s)) && s.last().kind
            == Kind::Bool(true)) ==> (pure_effect(Builtin::GtN, rest.push(y).push(x), op) matches Some((
            Ok(()),
            t,
        )) && t.last().kind == Kind::Bool(false)),
{
    law_number_builtins(rest, x, y, op);
    law_number_builtins(rest, y, x, op);
}

/// `=` replaces the two values on top of the stack by whether their data is
/// equal, spanning both; where the two cannot be compared (scopes), it fails
/// with both taken.
pub proof fn law_eq_compares(rest: Seq<Any>, x: Any, y: Any, op: Option<Span>)
    ensures
        kind_eq(x.kind, y.kind) matches Some(e) ==> pure_effect(Builtin::Eq, rest.push(x).push(y), op)
            == Some::<(Result<(), EvalError>, Seq<Any>)>(
            (Ok(()), rest.push(Any { kind: Kind::Bool(e), span: opt_span_merge(x.span, y.span) })),
        ),
        kind_eq(x.kind, y.kind) is None ==> pure_effect(Builtin::Eq, rest.push(x).push(y), op) == Some::<
            (Result<(), EvalError>, Seq<Any>),
        >((Err(EvalError::Incomparable), rest)),
{
    assert(after_pop2(rest.push(x).push(y)) =~= rest);
}

/// A function defined in a scope, called by its name there, runs its body:
/// with no fuel left it fails, and else it evaluates the body's items in the
/// body's scope with one unit of fuel less.
pub proof fn law_defined_function_runs_its_body(
    fns: Functions<Function>,
    fuel: nat,
    scope: Scope,
    s: Seq<Any>,
    o: Seq<char>,
    call: Any,
    body: ListInner,
)
    requires
        call.kind is Word,
        forall|tys: Seq<Type>| #[trigger] fns.lookup_in(scope, (call.kind->Word_0)@, tys) == Some(
            Function::UserDefined { body },
        ),
        fns.valid(body.scope),
    ensures
        fuel == 0 ==> step(fns, fuel, scope, s, o, call) == Some::<(Result<(), EvalError>, Seq<Any>, Seq<char>)>(
            (Err(EvalError::RecursionLimit), s, o),
        ),
        fuel > 0 ==> step(fns, fuel, scope, s, o, call) == simple_run(fns, (fuel - 1) as nat, body.scope, s, o, body.items@),
{
    let tys = stack_types(s);
    assert(fns.lookup_in(scope, (call.kind->Word_0)@, tys) == Some(Function::UserDefined { body }));
    crate::functions::law_own_definition_found(&fns, scope, (call.kind->Word_0)@, tys);
}

/// Whether values are those of expressions read as `views`, the value at
/// `k` with its lists in `scopes[k]`.
pub open spec fn values_fit_views(vals: Seq<Any>, views: Seq<ExprView>, scopes: Seq<Scope>) -> bool {
    &&& vals.len() == views.len()
    &&& scopes.len() == views.len()
    &&& forall|k: int| 0 <= k < vals.len() ==> #[trigger] value_fits_view(vals[k], views[k], scopes[k])
}

/// Whether scopes are numbered one after the other from `first` on.
pub open spec fn numbered_from(scopes: Seq<Scope>, first: nat) -> bool {
    forall|k: int| 0 <= k < scopes.len() ==> #[trigger] scopes[k] == Scope((first + k) as u64)
}

/// Whether `mid` is `before` with the scope `sc` added below `scope`, the
/// scope that an expression of a program is read into, and nothing else
/// changed.
pub open spec fn scope_added(before: Interpreter, mid: Interpreter, scope: Scope, sc: Scope) -> bool {
    &&& sc.0 == before.fns().scope_count()
    &&& mid.fns().adds_scopes_to(&before.fns())
    &&& mid.fns().scope_count() == before.fns().scope_count() + 1
    &&& mid.fns().valid(sc)
    &&& mid.fns().parent_of(sc) == Some(scope)
    &&& mid.values() == before.values()
    &&& mid.bases() == before.bases()
    &&& mid.out() == before.out()
    &&& mid.frames() == before.frames()
    &&& mid.modules() == before.modules()
    &&& mid.texts() == before.texts()
    &&& mid.limit() == before.limit()
}

/// Whether `states` are the states that evaluating `vals` one after the other
/// in `scope` passes through, with `fuel` for each: before the value at `k`
/// its scope `scopes[k]` is added, which gives `mids[k]`, and evaluating the
/// value from there gives `states[k + 1]` with the result `results[k]`.
pub open spec fn evaluation_trace(
    states: Seq<Interpreter>,
    mids: Seq<Interpreter>,
    results: Seq<Result<(), EvalError>>,
    scope: Scope,
    vals: Seq<Any>,
    scopes: Seq<Scope>,
    fuel: nat,
) -> bool {
    &&& states.len() == vals.len() + 1
    &&& mids.len() == vals.len()
    &&& results.len() == vals.len()
    &&& scopes.len() == vals.len()
    &&& forall|k: int| 0 <= k < vals.len() ==> scope_added(states[k], #[trigger] mids[k], scope, scopes[k])
    &&& forall|k: int| 0 <= k < vals.len() ==> value_outcome(#[trigger] mids[k], states[k + 1], scope, vals[k], fuel, results[k])
}

} // verus!
