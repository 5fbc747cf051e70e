//! The name and argument types under which a function is defined.

use vstd::prelude::*;

use crate::types::{type_eq, Type};

verus! {

/// A function's name and the types of its arguments, deepest on the stack
/// first.
#[derive(Debug)]
pub struct Signature {
    pub name: String,
    pub args: Vec<Type>,
}

/// Argument lists agree where both have an argument, `Any` agreeing with
/// every type.
pub open spec fn args_agree(a: Seq<Type>, b: Seq<Type>) -> bool {
    forall|i: int| 0 <= i < a.len() && i < b.len() ==> #[trigger] type_eq(a[i], b[i])
}

impl Signature {
    /// Whether two signatures denote the same function: the same name, and
    /// argument types that agree as far as both lists go.
    pub fn matches(&self, other: &Signature) -> (r: bool)
        ensures
            r == (self.name@ == other.name@ && args_agree(self.args@, other.args@)),
    {
        let n = if self.args.len() < other.args.len() { self.args.len() } else { other.args.len() };
        let mut i: usize = 0;
        let mut all = true;
        while i < n
            invariant
                n <= self.args@.len(),
                n <= other.args@.len(),
                n == self.args@.len() || n == other.args@.len(),
                i <= n,
                all == (forall|j: int| 0 <= j < i ==> #[trigger] type_eq(self.args@[j], other.args@[j])),
            decreases n - i,
        {
            all = all && self.args[i].matches(&other.args[i]);
            i = i + 1;
        }
        self.name == other.name && all
    }
}

} // verus!
