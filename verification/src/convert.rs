//! Turning parsed expressions into values.

use std::rc::Rc;

use vstd::prelude::*;

use crate::{
    functions::Scope,
    parser::{expr_matches, items_match, kind_matches, ExprKindView, ExprView, Expression, ExpressionKind},
    value::{Any, Kind, ListInner},
};

verus! {

/// Whether a value's data is that of an expression, with every list in it
/// evaluated in `scope`.
pub open spec fn kind_of_expr(k: Kind, e: ExpressionKind, scope: Scope) -> bool
    decreases e,
{
    match (k, e) {
        (Kind::Bool(a), ExpressionKind::Bool(b)) => a == b,
        (Kind::Float(a), ExpressionKind::Float(b)) => a == b,
        (Kind::Number(a), ExpressionKind::Number(b)) => a == b,
        (Kind::String(a), ExpressionKind::String(b)) => a@ == b@,
        (Kind::Symbol(a), ExpressionKind::Symbol(b)) => a@ == b@,
        (Kind::Word(a), ExpressionKind::Word(b)) => a@ == b@,
        (Kind::List(l), ExpressionKind::List(v)) => l.scope == scope && l.items@.len() == v@.len()
            && items_of_exprs(e, l.items@, v@, scope, 0),
        _ => false,
    }
}

/// Whether the values `xs` are those of the expressions `es` from index `i`
/// on; `whole` is the list expression, which the recursion measures against.
pub open spec fn items_of_exprs(
    whole: ExpressionKind,
    xs: Seq<Any>,
    es: Seq<Expression>,
    scope: Scope,
    i: int,
) -> bool
    decreases whole, es.len() - i,
    when whole matches ExpressionKind::List(v) && v@ == es && 0 <= i
{
    if i >= es.len() || i >= xs.len() {
        true
    } else {
        &&& xs[i].span == es[i].span
        &&& kind_of_expr(xs[i].kind, es[i].kind, scope)
        &&& items_of_exprs(whole, xs, es, scope, i + 1)
    }
}

/// Whether a value is that of an expression.
pub open spec fn value_of_expr(a: Any, e: Expression, scope: Scope) -> bool {
    a.span == e.span && kind_of_expr(a.kind, e.kind, scope)
}

/// Values that each are those of their expressions make a list of them.
proof fn lemma_items_of_exprs(
    whole: ExpressionKind,
    xs: Seq<Any>,
    es: Seq<Expression>,
    scope: Scope,
    i: int,
)
    requires
        whole matches ExpressionKind::List(v) && v@ == es,
        xs.len() == es.len(),
        0 <= i <= es.len(),
        forall|j: int| i <= j < es.len() ==> #[trigger] value_of_expr(xs[j], es[j], scope),
    ensures
        items_of_exprs(whole, xs, es, scope, i),
    decreases es.len() - i,
{
    if i < es.len() {
        assert(value_of_expr(xs[i], es[i], scope));
        lemma_items_of_exprs(whole, xs, es, scope, i + 1);
    }
}

/// Whether a value is one that an expression read as `ev` gives, with every
/// list in it evaluated in `scope`: the float syntax may have taken a word
/// for a float.
pub open spec fn value_fits_view(v: Any, ev: ExprView, scope: Scope) -> bool
    decreases ev,
{
    &&& v.span == ev.span
    &&& match ev.kind {
        ExprKindView::Bool(b) => v.kind == Kind::Bool(b),
        ExprKindView::Float(f) => v.kind == Kind::Float(f),
        ExprKindView::Number(n) => v.kind == Kind::Number(n),
        ExprKindView::String(t) => v.kind is String && v.kind->String_0@ == t,
        ExprKindView::Symbol(t) => v.kind is Symbol && v.kind->Symbol_0@ == t,
        ExprKindView::Word(w) => (v.kind is Word && v.kind->Word_0@ == w) || v.kind is Float,
        ExprKindView::List(vs) => {
            &&& v.kind is List
            &&& v.kind->List_0.scope == scope
            &&& v.kind->List_0.items@.len() == vs.len()
            &&& forall|i: int| 0 <= i < vs.len() ==> value_fits_view(#[trigger] v.kind->List_0.items@[i], vs[i], scope)
        },
    }
}

/// The item at `j` of values that are those of expressions that match views.
proof fn lemma_items_at(
    whole: ExpressionKind,
    xs: Seq<Any>,
    es: Seq<Expression>,
    vs: Seq<ExprView>,
    scope: Scope,
    i: int,
    j: int,
)
    requires
        whole matches ExpressionKind::List(v) && v@ == es,
        0 <= i <= j < es.len(),
        xs.len() == es.len(),
        vs.len() == es.len(),
        items_of_exprs(whole, xs, es, scope, i),
        items_match(whole, es, vs, i),
    ensures
        value_of_expr(xs[j], es[j], scope),
        expr_matches(es[j], vs[j]),
    decreases j - i,
{
    if i < j {
        lemma_items_at(whole, xs, es, vs, scope, i + 1, j);
    }
}

/// The value of an expression that matches a view fits the view.
pub proof fn lemma_value_fits_view(v: Any, e: Expression, ev: ExprView, scope: Scope)
    requires
        value_of_expr(v, e, scope),
        expr_matches(e, ev),
    ensures
        value_fits_view(v, ev, scope),
    decreases e,
{
    match e.kind {
        ExpressionKind::List(items) => {
            let l = v.kind->List_0;
            let vs = ev.kind->List_0;
            assert forall|i: int| 0 <= i < vs.len() implies value_fits_view(#[trigger] l.items@[i], vs[i], scope) by {
                lemma_items_at(e.kind, l.items@, items@, vs, scope, 0, i);
                assert(decreases_to!(e => items@[i]));
                lemma_value_fits_view(l.items@[i], items@[i], vs[i], scope);
            }
        },
        _ => {},
    }
}

impl Any {
    /// The value of an expression; every list in it is evaluated in `scope`.
    pub fn from_expression(expression: Expression, scope: Scope) -> (r: Any)
        ensures
            value_of_expr(r, expression, scope),
        decreases expression, 1int,
    {
        let ghost e0 = expression;
        let span = expression.span;
        let kind = match expression.kind {
            ExpressionKind::Bool(b) => Kind::Bool(b),
            ExpressionKind::Float(f) => Kind::Float(f),
            ExpressionKind::Number(n) => Kind::Number(n),
            ExpressionKind::String(s) => Kind::String(s),
            ExpressionKind::Symbol(s) => Kind::Symbol(s),
            ExpressionKind::Word(s) => Kind::Word(s),
            ExpressionKind::List(items) => {
                let ghost ek = e0.kind;
                let l = ListInner::from_expressions_within(items, scope, Ghost(ek));
                Kind::List(l)
            },
        };
        Any { kind, span }
    }
}

impl ListInner {
    /// The list of the values of expressions, evaluated in `scope`.
    pub fn from_expressions(expressions: Vec<Expression>, scope: Scope) -> (r: ListInner)
        ensures
            r.scope == scope,
            r.items@.len() == expressions@.len(),
            forall|i: int| 0 <= i < expressions@.len() ==> #[trigger] value_of_expr(
                r.items@[i],
                expressions@[i],
                scope,
            ),
    {
        let ghost ek = ExpressionKind::List(expressions);
        ListInner::from_expressions_within(expressions, scope, Ghost(ek))
    }

    /// The list of the values of the items of the list expression `whole`.
    fn from_expressions_within(expressions: Vec<Expression>, scope: Scope, whole: Ghost<ExpressionKind>) -> (r: ListInner)
        requires
            whole@ matches ExpressionKind::List(v) && v == expressions,
        ensures
            r.scope == scope,
            r.items@.len() == expressions@.len(),
            forall|i: int| 0 <= i < expressions@.len() ==> #[trigger] value_of_expr(
                r.items@[i],
                expressions@[i],
                scope,
            ),
            kind_of_expr(Kind::List(r), whole@, scope),
        decreases whole@, 0int,
    {
        let ghost es = expressions@;
        let mut items: Vec<Any> = Vec::new();
        let mut rest = expressions;
        proof {
            assert(rest@ =~= es.skip(0));
        }
        while rest.len() > 0
            invariant
                whole@ matches ExpressionKind::List(v) && v@ == es,
                items@.len() + rest@.len() == es.len(),
                rest@ == es.skip(items@.len() as int),
                forall|j: int| 0 <= j < items@.len() ==> #[trigger] value_of_expr(items@[j], es[j], scope),
            decreases rest@.len(),
        {
            let e = rest.remove(0);
            let ghost k = items@.len() as int;
            proof {
                assert(e == es[k]);
                assert(decreases_to!(whole@ => es[k]));
            }
            let a = Any::from_expression(e, scope);
            items.push(a);
            proof {
                assert(rest@ =~= es.skip(items@.len() as int));
            }
        }
        proof {
            lemma_items_of_exprs(whole@, items@, es, scope, 0);
        }
        ListInner { items: Rc::new(items), scope }
    }
}

} // verus!
