//! The values that Kari programs compute with.

use std::rc::Rc;

use vstd::prelude::*;

use crate::{
    functions::Scope,
    source::Span,
    text::{decimal, push_decimal, str_to_string, string_push, string_push_str},
    types::{type_eq, name_of_type, Type},
};

verus! {

/// A floating-point number, held as what the library reads of it: the bits by
/// which two floats are compared (canonical, so that equal numbers have equal
/// bits) and the text by which it is shown.
#[derive(Debug)]
pub struct FloatValue {
    pub bits: u64,
    pub text: String,
}

impl Clone for FloatValue {
    fn clone(&self) -> (r: Self)
        ensures
            r == *self,
    {
        FloatValue { bits: self.bits, text: self.text.clone() }
    }
}

/// The data of a value.
#[derive(Debug)]
pub enum Kind {
    Bool(bool),
    Float(FloatValue),
    Number(u32),
    List(ListInner),
    Scope(Scope),
    String(String),
    Symbol(String),
    Word(String),
}

/// The items of a list, and the scope in which the list's words are evaluated.
#[derive(Debug)]
pub struct ListInner {
    pub items: Rc<Vec<Any>>,
    pub scope: Scope,
}

/// A value, with the place in the source it comes from.
#[derive(Debug)]
pub struct Any {
    pub kind: Kind,
    pub span: Option<Span>,
}

/// Calls `Rc::clone`, which hands out another pointer to the same value.
#[verifier::external_body]
pub fn rc_clone<T>(r: &Rc<T>) -> (res: Rc<T>)
    ensures
        res == *r,
{
    Rc::clone(r)
}

impl Clone for Kind {
    fn clone(&self) -> (r: Self)
        ensures
            r == *self,
    {
        match self {
            Kind::Bool(b) => Kind::Bool(*b),
            Kind::Float(f) => Kind::Float(f.clone()),
            Kind::Number(n) => Kind::Number(*n),
            Kind::List(l) => Kind::List(l.clone()),
            Kind::Scope(s) => Kind::Scope(*s),
            Kind::String(s) => Kind::String(s.clone()),
            Kind::Symbol(s) => Kind::Symbol(s.clone()),
            Kind::Word(s) => Kind::Word(s.clone()),
        }
    }
}

/// Copies an optional span.
pub fn clone_span(span: &Option<Span>) -> (r: Option<Span>)
    ensures
        r == *span,
{
    match span {
        Some(s) => Some(s.clone()),
        None => None,
    }
}

impl Clone for ListInner {
    fn clone(&self) -> (r: Self)
        ensures
            r == *self,
    {
        ListInner { items: rc_clone(&self.items), scope: self.scope }
    }
}

impl Clone for Any {
    fn clone(&self) -> (r: Self)
        ensures
            r == *self,
    {
        Any { kind: self.kind.clone(), span: clone_span(&self.span) }
    }
}

/// Copies the items of a list into a vector of their own.
pub fn clone_items(items: &Vec<Any>) -> (r: Vec<Any>)
    ensures
        r@ == items@,
{
    let mut out: Vec<Any> = Vec::new();
    let mut i: usize = 0;
    while i < items.len()
        invariant
            i <= items@.len(),
            out@ == items@.take(i as int),
        decreases items@.len() - i,
    {
        out.push(items[i].clone());
        i = i + 1;
        proof {
            assert(out@ =~= items@.take(i as int));
        }
    }
    proof {
        assert(out@ =~= items@);
    }
    out
}

/// The items of a list are smaller than the list.
pub proof fn lemma_list_item_decreases(k: Kind, i: int)
    requires
        k is List,
        0 <= i < (k->List_0).items@.len(),
    ensures
        decreases_to!(k => (k->List_0).items@[i].kind),
{
    let l = k->List_0;
    let v: Vec<Any> = *l.items;
    assert(decreases_to!(v => v@));
    assert(decreases_to!(v@ => v@[i]));
    assert(decreases_to!(v@[i] => v@[i].kind));
    assert(decreases_to!(k => l));
    assert(decreases_to!(l => v));
}

/// The type of a value.
pub open spec fn kind_type(k: Kind) -> Type {
    match k {
        Kind::Bool(_) => Type::Bool,
        Kind::Float(_) => Type::Float,
        Kind::Number(_) => Type::Number,
        Kind::List(_) => Type::List,
        Kind::Scope(_) => Type::Scope,
        Kind::String(_) => Type::String,
        Kind::Symbol(_) => Type::Symbol,
        Kind::Word(_) => Type::Word,
    }
}

/// Equality of two values' data, ignoring where they come from and which
/// scope a list carries. Comparing two scopes is not defined (`None`); a list
/// comparison stops at its first unequal pair of items.
pub open spec fn kind_eq(a: Kind, b: Kind) -> Option<bool>
    decreases a,
{
    match (a, b) {
        (Kind::Bool(x), Kind::Bool(y)) => Some(x == y),
        (Kind::Float(x), Kind::Float(y)) => Some(x.bits == y.bits),
        (Kind::Number(x), Kind::Number(y)) => Some(x == y),
        (Kind::String(x), Kind::String(y)) => Some(x@ == y@),
        (Kind::Symbol(x), Kind::Symbol(y)) => Some(x@ == y@),
        (Kind::Word(x), Kind::Word(y)) => Some(x@ == y@),
        (Kind::Scope(_), Kind::Scope(_)) => None,
        (Kind::List(x), Kind::List(y)) => {
            if x.items@.len() != y.items@.len() {
                Some(false)
            } else {
                items_eq(a, x.items@, y.items@, 0)
            }
        },
        _ => Some(false),
    }
}

/// Item-wise comparison of two lists of equal length from index `i` on;
/// `whole` is the first list's kind, which the recursion measures against.
pub open spec fn items_eq(whole: Kind, xs: Seq<Any>, ys: Seq<Any>, i: int) -> Option<bool>
    decreases whole, xs.len() - i,
    when whole matches Kind::List(l) && l.items@ == xs && 0 <= i
{
    if i >= xs.len() || i >= ys.len() {
        Some(true)
    } else {
        match kind_eq(xs[i].kind, ys[i].kind) {
            None => None,
            Some(false) => Some(false),
            Some(true) => items_eq(whole, xs, ys, i + 1),
        }
    }
}

/// How a value is shown, as `print` writes it.
pub open spec fn display(k: Kind) -> Seq<char>
    decreases k,
{
    match k {
        Kind::Bool(b) => if b { seq!['t', 'r', 'u', 'e'] } else { seq!['f', 'a', 'l', 's', 'e'] },
        Kind::Float(f) => f.text@,
        Kind::Number(n) => decimal(n as nat),
        Kind::List(l) => seq!['[', ' '] + display_items(k, l.items@, 0) + seq![']'],
        Kind::Scope(s) => seq!['S', 'c', 'o', 'p', 'e', '('] + decimal(s.0 as nat) + seq![')'],
        Kind::String(s) => s@,
        Kind::Symbol(s) => seq![':'] + s@,
        Kind::Word(s) => s@,
    }
}

/// The items of a list from index `i` on, each shown and followed by a space.
pub open spec fn display_items(whole: Kind, items: Seq<Any>, i: int) -> Seq<char>
    decreases whole, items.len() - i,
    when whole matches Kind::List(l) && l.items@ == items && 0 <= i
{
    if i >= items.len() {
        Seq::empty()
    } else {
        display(items[i].kind) + seq![' '] + display_items(whole, items, i + 1)
    }
}

impl Kind {
    /// The type of the value.
    pub fn get_type(&self) -> (r: Type)
        ensures
            r == kind_type(*self),
    {
        match self {
            Kind::Bool(_) => Type::Bool,
            Kind::Float(_) => Type::Float,
            Kind::Number(_) => Type::Number,
            Kind::List(_) => Type::List,
            Kind::Scope(_) => Type::Scope,
            Kind::String(_) => Type::String,
            Kind::Symbol(_) => Type::Symbol,
            Kind::Word(_) => Type::Word,
        }
    }

    /// Compares two values' data; `None` where two scopes would be compared.
    pub fn equals(&self, other: &Kind) -> (r: Option<bool>)
        ensures
            r == kind_eq(*self, *other),
        decreases self,
    {
        match (self, other) {
            (Kind::Bool(x), Kind::Bool(y)) => Some(*x == *y),
            (Kind::Float(x), Kind::Float(y)) => Some(x.bits == y.bits),
            (Kind::Number(x), Kind::Number(y)) => Some(*x == *y),
            (Kind::String(x), Kind::String(y)) => Some(*x == *y),
            (Kind::Symbol(x), Kind::Symbol(y)) => Some(*x == *y),
            (Kind::Word(x), Kind::Word(y)) => Some(*x == *y),
            (Kind::Scope(_), Kind::Scope(_)) => None,
            (Kind::List(x), Kind::List(y)) => {
                if x.items.len() != y.items.len() {
                    return Some(false);
                }
                let n = x.items.len();
                let mut i: usize = n;
                // Compare from the back, so that the result at each index is
                // known from the one after it.
                let mut acc: Option<bool> = Some(true);
                while i > 0
                    invariant
                        *self == Kind::List(*x),
                        i <= n,
                        n == x.items@.len(),
                        n == y.items@.len(),
                        acc == items_eq(*self, x.items@, y.items@, i as int),
                    decreases i,
                {
                    i = i - 1;
                    proof {
                        lemma_list_item_decreases(*self, i as int);
                    }
                    let e = x.items[i].kind.equals(&y.items[i].kind);
                    acc = match e {
                        None => None,
                        Some(false) => Some(false),
                        Some(true) => acc,
                    };
                }
                acc
            },
            (Kind::Bool(_), _) => Some(false),
            (Kind::Float(_), _) => Some(false),
            (Kind::Number(_), _) => Some(false),
            (Kind::String(_), _) => Some(false),
            (Kind::Symbol(_), _) => Some(false),
            (Kind::Word(_), _) => Some(false),
            (Kind::Scope(_), _) => Some(false),
            (Kind::List(_), _) => Some(false),
        }
    }

    /// Appends how the value is shown to `out`.
    pub fn write_display(&self, out: &mut String)
        ensures
            final(out)@ == old(out)@ + display(*self),
        decreases self,
    {
        match self {
            Kind::Bool(b) => {
                if *b {
                    proof { reveal_strlit("true"); }
                    string_push_str(out, "true");
                } else {
                    proof { reveal_strlit("false"); }
                    string_push_str(out, "false");
                }
            },
            Kind::Float(f) => {
                string_push_str(out, f.text.as_str());
            },
            Kind::Number(n) => {
                push_decimal(out, *n);
            },
            Kind::List(l) => {
                let ghost start = out@;
                string_push(out, '[');
                string_push(out, ' ');
                let mut i: usize = 0;
                while i < l.items.len()
                    invariant
                        *self == Kind::List(*l),
                        i <= l.items@.len(),
                        out@ + display_items(*self, l.items@, i as int)
                            == start + seq!['[', ' '] + display_items(*self, l.items@, 0),
                    decreases l.items@.len() - i,
                {
                    let ghost before = out@;
                    proof {
                        lemma_list_item_decreases(*self, i as int);
                    }
                    l.items[i].kind.write_display(out);
                    string_push(out, ' ');
                    proof {
                        assert(display_items(*self, l.items@, i as int)
                            == display(l.items@[i as int].kind) + seq![' '] + display_items(*self, l.items@, i + 1));
                        assert(out@ + display_items(*self, l.items@, i + 1)
                            =~= before + display_items(*self, l.items@, i as int));
                    }
                    i = i + 1;
                }
                string_push(out, ']');
                proof {
                    assert(display_items(*self, l.items@, i as int) =~= Seq::<char>::empty());
                    assert(out@ =~= start + display(*self));
                }
            },
            Kind::Scope(s) => {
                proof { reveal_strlit("Scope("); }
                string_push_str(out, "Scope(");
                push_decimal_u64(out, s.0);
                string_push(out, ')');
                proof {
                    assert(seq!['S', 'c', 'o', 'p', 'e', '('] =~= "Scope("@);
                }
            },
            Kind::String(s) => {
                string_push_str(out, s.as_str());
            },
            Kind::Symbol(s) => {
                string_push(out, ':');
                string_push_str(out, s.as_str());
            },
            Kind::Word(s) => {
                string_push_str(out, s.as_str());
            },
        }
    }

    /// How the value is shown.
    pub fn to_display(&self) -> (r: String)
        ensures
            r@ == display(*self),
    {
        let mut s = String::new();
        self.write_display(&mut s);
        s
    }
}

/// Appends the decimal form of a 64-bit number.
pub fn push_decimal_u64(out: &mut String, n: u64)
    ensures
        final(out)@ == old(out)@ + decimal(n as nat),
    decreases n,
{
    if n >= 10 {
        push_decimal_u64(out, n / 10);
    }
    let d = (n % 10) as u32;
    push_decimal(out, d);
}

impl ListInner {
    /// A list of the given values, evaluated in `scope`.
    pub fn from_values(values: Vec<Any>, scope: Scope) -> (r: ListInner)
        ensures
            r.items@ == values@,
            r.scope == scope,
    {
        ListInner { items: Rc::new(values), scope }
    }
}

impl Any {
    /// A value without a place in the source.
    pub fn new(kind: Kind, span: Option<Span>) -> (r: Any)
        ensures
            r.kind == kind,
            r.span == span,
    {
        Any { kind, span }
    }

    /// The type of the value.
    pub fn get_type(&self) -> (r: Type)
        ensures
            r == kind_type(self.kind),
    {
        self.kind.get_type()
    }
}

/// The error of a value that does not have the expected type.
#[derive(Debug)]
pub struct TypeError {
    pub expected: Type,
    pub actual: Any,
}

/// Checks that a value has the given type, handing it back either way.
pub fn cast(value: Any, ty: Type) -> (r: Result<Any, TypeError>)
    ensures
        type_eq(ty, kind_type(value.kind)) ==> r == Ok::<Any, TypeError>(value),
        !type_eq(ty, kind_type(value.kind)) ==> r == Err::<Any, TypeError>(
            TypeError { expected: ty, actual: value },
        ),
{
    let t = value.get_type();
    if ty.matches(&t) {
        Ok(value)
    } else {
        Err(TypeError { expected: ty, actual: value })
    }
}

/// The message of a type error.
pub open spec fn type_error_message(e: TypeError) -> Seq<char> {
    "Type error: Expected `"@ + name_of_type(e.expected) + "`, found `"@ + display(e.actual.kind)
        + "`"@
}

impl TypeError {
    /// The places in the source that the error refers to: that of the value.
    pub fn spans(&self) -> (r: Vec<Span>)
        ensures
            self.actual.span.is_some() ==> r@ == seq![self.actual.span.unwrap()],
            self.actual.span.is_none() ==> r@.len() == 0,
    {
        let mut v = Vec::new();
        match &self.actual.span {
            Some(s) => v.push(s.clone()),
            None => {},
        }
        v
    }

    /// The message of the error.
    pub fn message(&self) -> (r: String)
        ensures
            r@ == type_error_message(*self),
    {
        proof {
            reveal_strlit("Type error: Expected `");
            reveal_strlit("`, found `");
            reveal_strlit("`");
        }
        let mut s = str_to_string("Type error: Expected `");
        let name = self.expected.name();
        string_push_str(&mut s, name.as_str());
        string_push_str(&mut s, "`, found `");
        self.actual.kind.write_display(&mut s);
        string_push(&mut s, '`');
        proof {
            assert(s@ =~= type_error_message(*self));
        }
        s
    }
}

/// Comparing items of two lists of one length from `i` on: equal where every
/// pair is, unequal where the first pair that is not equal is unequal, and
/// never equal where some pair is unequal.
proof fn lemma_items_eq(whole: Kind, xs: Seq<Any>, ys: Seq<Any>, i: int)
    requires
        whole matches Kind::List(l) && l.items@ == xs,
        0 <= i <= xs.len(),
        xs.len() == ys.len(),
    ensures
        (forall|j: int| i <= j < xs.len() ==> #[trigger] kind_eq(xs[j].kind, ys[j].kind) == Some(true))
            ==> items_eq(whole, xs, ys, i) == Some(true),
        (exists|k: int|
            i <= k < xs.len() && #[trigger] kind_eq(xs[k].kind, ys[k].kind) == Some(false) && forall|j: int|
                i <= j < k ==> #[trigger] kind_eq(xs[j].kind, ys[j].kind) == Some(true)) ==> items_eq(
            whole,
            xs,
            ys,
            i,
        ) == Some(false),
        (exists|k: int| i <= k < xs.len() && #[trigger] kind_eq(xs[k].kind, ys[k].kind) == Some(false))
            ==> items_eq(whole, xs, ys, i) != Some(true),
    decreases xs.len() - i,
{
    if i < xs.len() {
        lemma_items_eq(whole, xs, ys, i + 1);
        if exists|k: int|
            i <= k < xs.len() && #[trigger] kind_eq(xs[k].kind, ys[k].kind) == Some(false) && forall|j: int|
                i <= j < k ==> #[trigger] kind_eq(xs[j].kind, ys[j].kind) == Some(true) {
            let k = choose|k: int|
                i <= k < xs.len() && #[trigger] kind_eq(xs[k].kind, ys[k].kind) == Some(false) && forall|j: int|
                    i <= j < k ==> #[trigger] kind_eq(xs[j].kind, ys[j].kind) == Some(true);
            if k > i {
                assert(kind_eq(xs[i].kind, ys[i].kind) == Some(true));
                assert(forall|j: int| i + 1 <= j < k ==> #[trigger] kind_eq(xs[j].kind, ys[j].kind) == Some(true));
            }
        }
        if exists|k: int| i <= k < xs.len() && #[trigger] kind_eq(xs[k].kind, ys[k].kind) == Some(false) {
            let k = choose|k: int| i <= k < xs.len() && #[trigger] kind_eq(xs[k].kind, ys[k].kind) == Some(false);
            if k > i {
                assert(i + 1 <= k < xs.len() && kind_eq(xs[k].kind, ys[k].kind) == Some(false));
            }
        }
    }
}

/// Lists are equal item by item: lists of different lengths are unequal;
/// lists of one length are equal where every pair of corresponding items is
/// equal, and unequal where the first pair that is not equal is unequal; and
/// lists with an unequal pair of items are never equal.
pub proof fn law_list_equality_is_itemwise(a: ListInner, b: ListInner)
    ensures
        a.items@.len() != b.items@.len() ==> kind_eq(Kind::List(a), Kind::List(b)) == Some(false),
        a.items@.len() == b.items@.len() && (forall|i: int|
            0 <= i < a.items@.len() ==> #[trigger] kind_eq(a.items@[i].kind, b.items@[i].kind) == Some(true))
            ==> kind_eq(Kind::List(a), Kind::List(b)) == Some(true),
        a.items@.len() == b.items@.len() && (exists|i: int|
            0 <= i < a.items@.len() && #[trigger] kind_eq(a.items@[i].kind, b.items@[i].kind) == Some(false)
                && forall|j: int| 0 <= j < i ==> #[trigger] kind_eq(a.items@[j].kind, b.items@[j].kind) == Some(true))
            ==> kind_eq(Kind::List(a), Kind::List(b)) == Some(false),
        (exists|i: int|
            0 <= i < a.items@.len() && i < b.items@.len() && #[trigger] kind_eq(a.items@[i].kind, b.items@[i].kind)
                == Some(false)) ==> kind_eq(Kind::List(a), Kind::List(b)) != Some(true),
{
    if a.items@.len() == b.items@.len() {
        lemma_items_eq(Kind::List(a), a.items@, b.items@, 0);
    }
}

/// Showing the items of a list from `i` on is showing each of them, followed
/// by a space, one after the other.
proof fn lemma_display_items(whole: Kind, items: Seq<Any>, i: int)
    requires
        whole matches Kind::List(l) && l.items@ == items,
        0 <= i <= items.len(),
    ensures
        display_items(whole, items, i) == items.subrange(i, items.len() as int).flat_map(
            |a: Any| display(a.kind) + seq![' '],
        ),
    decreases items.len() - i,
{
    let f = |a: Any| display(a.kind) + seq![' '];
    let sub = items.subrange(i, items.len() as int);
    if i < items.len() {
        lemma_display_items(whole, items, i + 1);
        let m = sub.map_values(f);
        assert(m.first() == f(items[i]));
        assert(m.drop_first() =~= items.subrange(i + 1, items.len() as int).map_values(f));
        assert(sub.flat_map(f) == m.flatten());
        assert(m.flatten() == m.first() + m.drop_first().flatten());
    } else {
        assert(sub.map_values(f) =~= Seq::<Seq<char>>::empty());
    }
}

/// A list is shown as `[ `, then each of its items shown as it is shown on
/// its own, nested lists included, each followed by a space, and then `]`.
pub proof fn law_list_display(l: ListInner)
    ensures
        display(Kind::List(l)) == seq!['[', ' '] + l.items@.flat_map(|a: Any| display(a.kind) + seq![' '])
            + seq![']'],
{
    lemma_display_items(Kind::List(l), l.items@, 0);
    assert(l.items@.subrange(0, l.items@.len() as int) =~= l.items@);
}

} // verus!
