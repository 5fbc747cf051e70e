//! The data stack that Kari programs work on.
//!
//! The stack is split into substacks: a builtin can open a substack, evaluate
//! code that pushes onto it, and then take exactly what was pushed since.

use vstd::prelude::*;

use crate::{
    source::Span,
    text::{string_push, string_push_str},
    value::{clone_items, display, Any, TypeError, type_error_message},
};

verus! {

/// The stack: its values, bottom first, and where each substack above the
/// bottom one begins.
#[derive(Debug)]
pub struct Stack {
    values: Vec<Any>,
    bases: Vec<usize>,
}

/// Where substacks begin once the stack was down to `n` values: no
/// substack begins beyond them.
pub open spec fn clamp_bases(bases: Seq<int>, n: int) -> Seq<int> {
    Seq::new(bases.len(), |i: int| if bases[i] <= n { bases[i] } else { n })
}

/// Going down to `a` values and then to `b` is going down to the lesser.
pub proof fn lemma_clamp_twice(bases: Seq<int>, a: int, b: int)
    ensures
        clamp_bases(clamp_bases(bases, a), b) == clamp_bases(bases, if a <= b { a } else { b }),
{
    assert(clamp_bases(clamp_bases(bases, a), b) =~= clamp_bases(bases, if a <= b { a } else { b }));
}

/// The text of a stack, as error hints show it: every value followed by a
/// space, bottom first.
pub open spec fn display_values(values: Seq<Any>) -> Seq<char>
    decreases values.len(),
{
    if values.len() == 0 {
        Seq::empty()
    } else {
        display_values(values.drop_last()) + display(values.last().kind) + seq![' ']
    }
}

impl Stack {
    /// Substacks begin in order, and none beyond the values.
    #[verifier::type_invariant]
    spec fn well_formed(self) -> bool {
        &&& forall|i: int, j: int|
            0 <= i <= j < self.bases@.len() ==> self.bases@[i] <= self.bases@[j]
        &&& forall|i: int| 0 <= i < self.bases@.len() ==> self.bases@[i] <= self.values@.len()
    }

    /// The values on the stack, bottom first.
    pub closed spec fn view(&self) -> Seq<Any> {
        self.values@
    }

    /// Where each substack above the bottom one begins, the lowest first;
    /// none begins beyond the values.
    pub closed spec fn bases(&self) -> Seq<int> {
        Seq::new(
            self.bases@.len(),
            |i: int| if self.bases@[i] <= self.values@.len() { self.bases@[i] as int } else { self.values@.len() as int },
        )
    }

    /// No substack begins beyond the values, so going down to as many values
    /// as there are, or more, moves no substack.
    pub proof fn lemma_bases_within(&self, n: int)
        requires
            n >= self@.len(),
        ensures
            forall|i: int| 0 <= i < self.bases().len() ==> 0 <= #[trigger] self.bases()[i] <= self@.len(),
            clamp_bases(self.bases(), n) == self.bases(),
    {
        assert(clamp_bases(self.bases(), n) =~= self.bases());
    }

    /// The number of substacks.
    pub open spec fn depth(&self) -> nat {
        self.bases().len() + 1
    }

    /// Where the topmost substack begins.
    pub open spec fn top_base(&self) -> int {
        if self.bases().len() == 0 { 0 } else { self.bases().last() }
    }

    /// The values of the topmost substack.
    pub open spec fn top_substack(&self) -> Seq<Any> {
        self@.skip(self.top_base())
    }

    /// A stack holds no more values than a `usize` counts.
    pub proof fn lemma_len_bound(&self)
        ensures
            self@.len() <= usize::MAX,
    {
        assert(self.values@.len() == self.values.len());
    }

    /// An empty stack of one substack.
    pub fn new() -> (r: Stack)
        ensures
            r@ == Seq::<Any>::empty(),
            r.bases() == Seq::<int>::empty(),
    {
        let r = Stack { values: Vec::new(), bases: Vec::new() };
        proof {
            assert(r.bases() =~= Seq::<int>::empty());
        }
        r
    }

    /// The number of values on the stack.
    pub fn len(&self) -> (r: usize)
        ensures
            r == self@.len(),
    {
        self.values.len()
    }

    /// Pushes a value onto the topmost substack.
    pub fn push_raw(&mut self, value: Any)
        ensures
            final(self)@ == old(self)@.push(value),
            final(self).bases() == old(self).bases(),
    {
        let ghost b0 = old(self).bases();
        let (mut values, bases) = self.take_parts();
        values.push(value);
        *self = Stack { values, bases };
        proof {
            assert(self.bases() =~= b0);
        }
    }

    /// Takes the stack's parts out, leaving it empty.
    fn take_parts(&mut self) -> (r: (Vec<Any>, Vec<usize>))
        ensures
            r.0@ == old(self).values@,
            r.1@ == old(self).bases@,
            forall|i: int, j: int| 0 <= i <= j < r.1@.len() ==> r.1@[i] <= r.1@[j],
            forall|i: int| 0 <= i < r.1@.len() ==> r.1@[i] <= r.0@.len(),
    {
        let mut tmp = Stack { values: Vec::new(), bases: Vec::new() };
        std::mem::swap(self, &mut tmp);
        proof {
            use_type_invariant(&tmp);
        }
        let Stack { values, bases } = tmp;
        (values, bases)
    }

    /// Pushes a value onto the stack.
    pub fn push(&mut self, value: Any)
        ensures
            final(self)@ == old(self)@.push(value),
            final(self).bases() == old(self).bases(),
    {
        self.push_raw(value)
    }

    /// Pushes two values, `a` first.
    pub fn push2(&mut self, a: Any, b: Any)
        ensures
            final(self)@ == old(self)@.push(a).push(b),
            final(self).bases() == old(self).bases(),
    {
        self.push_raw(a);
        self.push_raw(b);
    }

    /// Takes the topmost value, from whichever substack holds it. Substacks
    /// left above it are empty.
    pub fn pop_raw(&mut self) -> (r: Option<Any>)
        ensures
            old(self)@.len() == 0 ==> r is None && final(self)@ == old(self)@,
            old(self)@.len() > 0 ==> r == Some(old(self)@.last()) && final(self)@
                == old(self)@.drop_last(),
            final(self).bases() == clamp_bases(old(self).bases(), final(self)@.len() as int),
    {
        let ghost b0 = old(self).bases();
        let (mut values, mut bases) = self.take_parts();
        let n = values.len();
        if n == 0 {
            *self = Stack { values, bases };
            proof {
                assert(self.bases() =~= clamp_bases(b0, 0));
            }
            return None;
        }
        let new_len = n - 1;
        let ghost old_bases = bases@;
        // Substacks that began beyond the new top now begin at it.
        let mut j: usize = bases.len();
        while j > 0
            invariant
                j <= bases@.len(),
                bases@.len() == old_bases.len(),
                new_len + 1 == values@.len(),
                forall|i: int, k: int| 0 <= i <= k < old_bases.len() ==> old_bases[i] <= old_bases[k],
                forall|i: int| 0 <= i < j ==> bases@[i] == old_bases[i],
                forall|i: int| j <= i < bases@.len() ==> bases@[i] == new_len,
                forall|i: int| j <= i < bases@.len() ==> old_bases[i] >= new_len,
            ensures
                j <= bases@.len(),
                bases@.len() == old_bases.len(),
                forall|i: int| 0 <= i < j ==> bases@[i] == old_bases[i],
                forall|i: int| j <= i < bases@.len() ==> bases@[i] == new_len,
                forall|i: int| j <= i < bases@.len() ==> old_bases[i] >= new_len,
                j == 0 || old_bases[j - 1] <= new_len,
            decreases j,
        {
            let k = j - 1;
            if bases[k] <= new_len {
                break;
            }
            bases.set(k, new_len);
            j = k;
        }
        proof {
            assert forall|i: int| 0 <= i < bases@.len() implies bases@[i] == if old_bases[i]
                <= new_len {
                old_bases[i]
            } else {
                new_len
            } by {
                if i < j {
                    assert(old_bases[i] <= old_bases[j - 1]);
                }
            }
        }
        let v = values.pop().unwrap();
        *self = Stack { values, bases };
        proof {
            assert(self.bases() =~= clamp_bases(b0, new_len as int));
        }
        Some(v)
    }

    /// Takes the topmost value.
    pub fn pop(&mut self) -> (r: Result<Any, Error>)
        ensures
            old(self)@.len() == 0 ==> r == Err::<Any, Error>(Error::StackEmpty) && final(self)@
                == old(self)@,
            old(self)@.len() > 0 ==> r == Ok::<Any, Error>(old(self)@.last()) && final(self)@
                == old(self)@.drop_last(),
            final(self).bases() == clamp_bases(old(self).bases(), final(self)@.len() as int),
    {
        match self.pop_raw() {
            Some(v) => Ok(v),
            None => Err(Error::StackEmpty),
        }
    }

    /// Takes the two topmost values, returning them in stack order: the lower
    /// one first. When only one value is there, it is taken and lost.
    pub fn pop2(&mut self) -> (r: Result<(Any, Any), Error>)
        ensures
            old(self)@.len() >= 2 ==> r == Ok::<(Any, Any), Error>(
                (old(self)@[old(self)@.len() - 2], old(self)@.last()),
            ) && final(self)@ == old(self)@.take(old(self)@.len() - 2),
            old(self)@.len() < 2 ==> r == Err::<(Any, Any), Error>(Error::StackEmpty)
                && final(self)@ == Seq::<Any>::empty(),
            final(self).bases() == clamp_bases(old(self).bases(), final(self)@.len() as int),
    {
        let ghost b0 = old(self).bases();
        let b = self.pop()?;
        let ghost mid = *self;
        let a = match self.pop() {
            Ok(a) => a,
            Err(e) => {
                proof {
                    lemma_clamp_twice(b0, mid@.len() as int, self@.len() as int);
                }
                return Err(e);
            },
        };
        proof {
            assert(old(self)@.drop_last().drop_last() =~= old(self)@.take(old(self)@.len() - 2));
            lemma_clamp_twice(b0, mid@.len() as int, self@.len() as int);
        }
        Ok((a, b))
    }

    /// Takes the three topmost values, returning them in stack order: the
    /// lowest one first. Values taken before the stack ran out are lost.
    pub fn pop3(&mut self) -> (r: Result<(Any, Any, Any), Error>)
        ensures
            old(self)@.len() >= 3 ==> r == Ok::<(Any, Any, Any), Error>(
                (
                    old(self)@[old(self)@.len() - 3],
                    old(self)@[old(self)@.len() - 2],
                    old(self)@.last(),
                ),
            ) && final(self)@ == old(self)@.take(old(self)@.len() - 3),
            old(self)@.len() < 3 ==> r == Err::<(Any, Any, Any), Error>(Error::StackEmpty)
                && final(self)@ == Seq::<Any>::empty(),
            final(self).bases() == clamp_bases(old(self).bases(), final(self)@.len() as int),
    {
        let ghost b0 = old(self).bases();
        let c = self.pop()?;
        let ghost mid = *self;
        let (a, b) = match self.pop2() {
            Ok(p) => p,
            Err(e) => {
                proof {
                    lemma_clamp_twice(b0, mid@.len() as int, self@.len() as int);
                }
                return Err(e);
            },
        };
        proof {
            lemma_clamp_twice(b0, mid@.len() as int, self@.len() as int);
        }
        proof {
            assert(old(self)@.drop_last().take(old(self)@.len() - 3) =~= old(self)@.take(
                old(self)@.len() - 3,
            ));
        }
        Ok((a, b, c))
    }

    /// The value `depth` places below the top (0 is the topmost value).
    pub fn peek_at(&self, depth: usize) -> (r: Option<&Any>)
        ensures
            depth < self@.len() ==> r == Some(&self@[self@.len() - 1 - depth]),
            depth >= self@.len() ==> r is None,
    {
        let n = self.values.len();
        if depth < n {
            Some(&self.values[n - 1 - depth])
        } else {
            None
        }
    }

    /// The values from the top down.
    pub fn peek(&self) -> (r: Vec<Any>)
        ensures
            r@ == self@.reverse(),
    {
        let n = self.values.len();
        let mut out: Vec<Any> = Vec::new();
        let mut d: usize = 0;
        while d < n
            invariant
                n == self@.len(),
                d <= n,
                out@ == self@.reverse().take(d as int),
            decreases n - d,
        {
            out.push(self.values[n - 1 - d].clone());
            d = d + 1;
            proof {
                assert(out@ =~= self@.reverse().take(d as int));
            }
        }
        proof {
            assert(out@ =~= self@.reverse());
        }
        out
    }

    /// Opens a new, empty substack on top.
    pub fn create_substack(&mut self)
        ensures
            final(self)@ == old(self)@,
            final(self).bases() == old(self).bases().push(old(self)@.len() as int),
            final(self).top_substack() == Seq::<Any>::empty(),
    {
        let ghost b0 = old(self).bases();
        let (values, mut bases) = self.take_parts();
        let n = values.len();
        bases.push(n);
        *self = Stack { values, bases };
        proof {
            assert(self.bases() =~= b0.push(n as int));
            assert(self@.skip(n as int) =~= Seq::<Any>::empty());
        }
    }

    /// Closes the topmost substack and returns its values. The bottom substack
    /// is emptied, not closed, so that the stack always has one.
    pub fn destroy_substack(&mut self) -> (r: Vec<Any>)
        ensures
            r@ == old(self).top_substack(),
            old(self)@ == final(self)@ + r@,
            final(self).bases() == if old(self).bases().len() == 0 {
                old(self).bases()
            } else {
                old(self).bases().drop_last()
            },
    {
        let ghost b0 = old(self).bases();
        let (mut values, mut bases) = self.take_parts();
        let base: usize = if bases.len() == 0 { 0 } else { bases[bases.len() - 1] };
        let top = values.split_off(base);
        if bases.len() > 0 {
            bases.pop();
        }
        *self = Stack { values, bases };
        proof {
            assert(old(self)@ =~= self@ + top@);
            if b0.len() == 0 {
                assert(self.bases() =~= b0);
            } else {
                assert(self.bases() =~= b0.drop_last());
            }
        }
        top
    }

    /// Takes all values off the stack, bottom first.
    pub fn into_vec(self) -> (r: Vec<Any>)
        ensures
            r@ == self@,
    {
        self.values
    }

    /// The text of the stack: every value followed by a space, bottom first.
    pub fn to_display(&self) -> (r: String)
        ensures
            r@ == display_values(self@),
    {
        let mut out = String::new();
        let n = self.values.len();
        let mut i: usize = 0;
        while i < n
            invariant
                n == self@.len(),
                i <= n,
                out@ == display_values(self@.take(i as int)),
            decreases n - i,
        {
            self.values[i].kind.write_display(&mut out);
            string_push(&mut out, ' ');
            proof {
                assert(self@.take(i + 1).drop_last() =~= self@.take(i as int));
            }
            i = i + 1;
        }
        proof {
            assert(self@.take(n as int) =~= self@);
        }
        out
    }
}

impl Clone for Stack {
    fn clone(&self) -> (r: Self)
        ensures
            r@ == self@,
            r.bases() == self.bases(),
    {
        proof {
            use_type_invariant(self);
        }
        let values = clone_items(&self.values);
        let bases = self.bases.clone();
        proof {
            assert(bases@ =~= self.bases@);
        }
        let r = Stack { values, bases };
        proof {
            assert(r.bases() =~= self.bases());
        }
        r
    }
}

/// Errors of taking values off the stack.
#[derive(Debug)]
pub enum Error {
    StackEmpty,
    TypeError(TypeError),
}

/// The message of a stack error.
pub open spec fn stack_error_message(e: Error) -> Seq<char> {
    match e {
        Error::StackEmpty => "Tried to pop value, but stack is empty"@,
        Error::TypeError(t) => type_error_message(t),
    }
}

impl Error {
    /// The places in the source that the error refers to.
    pub fn spans(&self) -> (r: Vec<Span>)
        ensures
            self is StackEmpty ==> r@.len() == 0,
            self matches Error::TypeError(t) ==> (t.actual.span matches Some(s) ==> r@ == seq![s])
                && (t.actual.span is None ==> r@.len() == 0),
    {
        match self {
            Error::StackEmpty => Vec::new(),
            Error::TypeError(e) => e.spans(),
        }
    }

    /// The message of the error.
    pub fn message(&self) -> (r: String)
        ensures
            r@ == stack_error_message(*self),
    {
        match self {
            Error::StackEmpty => {
                proof {
                    reveal_strlit("Tried to pop value, but stack is empty");
                }
                crate::text::str_to_string("Tried to pop value, but stack is empty")
            },
            Error::TypeError(e) => e.message(),
        }
    }
}

/// A substack opened on a stack, onto which values were pushed, holds exactly
/// those values; closing it gives them back and leaves the stack as it was.
pub proof fn law_substack_holds_what_was_pushed(opened: Stack, filled: Stack, vals: Seq<Any>)
    requires
        opened.top_substack() == Seq::<Any>::empty(),
        opened.top_base() <= opened@.len(),
        filled@ == opened@ + vals,
        filled.top_base() == opened.top_base(),
    ensures
        filled.top_substack() == vals,
        filled@ == opened@ + filled.top_substack(),
{
    assert(opened@.len() - opened.top_base() == 0) by {
        assert(opened@.skip(opened.top_base()).len() == 0);
    }
    assert(filled@.skip(filled.top_base()) =~= vals);
}

/// A value pushed is the value popped, and popping it restores the stack:
/// after a push, the stack is not empty, its topmost value is the one pushed,
/// and without it the stack is the one before.
pub proof fn law_push_then_pop(before: Stack, pushed: Stack, v: Any)
    requires
        pushed@ == before@.push(v),
    ensures
        pushed@.len() > 0,
        pushed@.last() == v,
        pushed@.drop_last() == before@,
{
    assert(pushed@.drop_last() =~= before@);
}

} // verus!
