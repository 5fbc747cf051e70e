//! The types of values, as functions name them in their signatures.

use vstd::prelude::*;

verus! {

/// The type of a value. `Any` stands for every type in a signature.
#[derive(Copy, Debug, PartialEq, Eq, Structural)]
pub enum Type {
    Any,
    Bool,
    Float,
    Number,
    List,
    Scope,
    String,
    Symbol,
    Word,
}

impl Clone for Type {
    fn clone(&self) -> (r: Self)
        ensures
            r == *self,
    {
        *self
    }
}

/// Two types are equal when they are the same, or when one of them is `Any`.
pub open spec fn type_eq(a: Type, b: Type) -> bool {
    a == b || a == Type::Any || b == Type::Any
}

/// The name of a type, as error messages show it.
pub open spec fn name_of_type(t: Type) -> Seq<char> {
    match t {
        Type::Any => seq!['a', 'n', 'y'],
        Type::Bool => seq!['b', 'o', 'o', 'l'],
        Type::Float => seq!['f', 'l', 'o', 'a', 't'],
        Type::Number => seq!['n', 'u', 'm', 'b', 'e', 'r'],
        Type::List => seq!['l', 'i', 's', 't'],
        Type::Scope => seq!['s', 'c', 'o', 'p', 'e'],
        Type::String => seq!['s', 't', 'r', 'i', 'n', 'g'],
        Type::Symbol => seq!['s', 'y', 'm', 'b', 'o', 'l'],
        Type::Word => seq!['w', 'o', 'r', 'd'],
    }
}

impl Type {
    /// Type equality, where `Any` equals every type.
    pub fn matches(&self, other: &Type) -> (r: bool)
        ensures
            r == type_eq(*self, *other),
    {
        match (self, other) {
            (Type::Any, _) => true,
            (_, Type::Any) => true,
            (Type::Bool, Type::Bool) => true,
            (Type::Float, Type::Float) => true,
            (Type::Number, Type::Number) => true,
            (Type::List, Type::List) => true,
            (Type::Scope, Type::Scope) => true,
            (Type::String, Type::String) => true,
            (Type::Symbol, Type::Symbol) => true,
            (Type::Word, Type::Word) => true,
            _ => false,
        }
    }

    /// The name of the type.
    pub fn name(&self) -> (r: String)
        ensures
            r@ == name_of_type(*self),
    {
        let s = match self {
            Type::Any => "any",
            Type::Bool => "bool",
            Type::Float => "float",
            Type::Number => "number",
            Type::List => "list",
            Type::Scope => "scope",
            Type::String => "string",
            Type::Symbol => "symbol",
            Type::Word => "word",
        };
        proof {
            reveal_strlit("any");
            reveal_strlit("bool");
            reveal_strlit("float");
            reveal_strlit("number");
            reveal_strlit("list");
            reveal_strlit("scope");
            reveal_strlit("string");
            reveal_strlit("symbol");
            reveal_strlit("word");
        }
        crate::text::str_to_string(s)
    }
}

/// Type equality is reflexive and symmetric, and `Any` equals every type.
pub proof fn law_type_equality(a: Type, b: Type)
    ensures
        type_eq(a, a),
        type_eq(a, b) == type_eq(b, a),
        type_eq(Type::Any, a),
{
}

} // verus!
