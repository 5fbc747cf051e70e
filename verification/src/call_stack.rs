//! The frames of the functions being evaluated.

use vstd::prelude::*;

use crate::{functions::Scope, source::Span, value::clone_span};

verus! {

/// A function being evaluated: the scope it was called in, and where the
/// word that called it stands.
#[derive(Debug)]
pub struct StackFrame {
    pub scope: Scope,
    pub span: Option<Span>,
}

impl Clone for StackFrame {
    fn clone(&self) -> (r: Self)
        ensures
            r == *self,
    {
        StackFrame { scope: self.scope, span: clone_span(&self.span) }
    }
}

/// The frames of the functions being evaluated, the outermost first.
#[derive(Debug)]
pub struct CallStack {
    pub frames: Vec<StackFrame>,
}

impl Clone for CallStack {
    fn clone(&self) -> (r: Self)
        ensures
            r.frames@ == self.frames@,
    {
        let mut frames: Vec<StackFrame> = Vec::new();
        let n = self.frames.len();
        let mut i: usize = 0;
        while i < n
            invariant
                n == self.frames@.len(),
                i <= n,
                frames@ == self.frames@.take(i as int),
            decreases n - i,
        {
            frames.push(self.frames[i].clone());
            i = i + 1;
            proof {
                assert(frames@ =~= self.frames@.take(i as int));
            }
        }
        proof {
            assert(frames@ =~= self.frames@);
        }
        CallStack { frames }
    }
}

impl CallStack {
    /// A call stack without frames.
    pub fn new() -> (r: CallStack)
        ensures
            r.frames@ == Seq::<StackFrame>::empty(),
    {
        CallStack { frames: Vec::new() }
    }

    /// The frame of the function being evaluated: the innermost one. A
    /// builtin always runs in a frame of its own.
    pub fn operator(&self) -> (r: &StackFrame)
        requires
            self.frames@.len() > 0,
        ensures
            *r == self.frames@.last(),
    {
        &self.frames[self.frames.len() - 1]
    }

    /// The frame of the function that called the one being evaluated, if any.
    pub fn caller(&self) -> (r: Option<&StackFrame>)
        ensures
            self.frames@.len() < 2 ==> r is None,
            self.frames@.len() >= 2 ==> r == Some(&self.frames@[self.frames@.len() - 2]),
    {
        if self.frames.len() < 2 {
            return None;
        }
        Some(&self.frames[self.frames.len() - 2])
    }
}

} // verus!
