//! Taking results one by one until the first error.

use vstd::prelude::*;

verus! {

/// The values of `s` before its first error.
pub open spec fn values_before_error<T, E>(s: Seq<Result<T, E>>) -> Seq<T>
    decreases s.len(),
{
    if s.len() == 0 {
        Seq::empty()
    } else {
        match s[0] {
            Ok(v) => seq![v] + values_before_error(s.drop_first()),
            Err(_) => Seq::empty(),
        }
    }
}

/// The first error of `s`, if it has one.
pub open spec fn first_error<T, E>(s: Seq<Result<T, E>>) -> Option<E>
    decreases s.len(),
{
    if s.len() == 0 {
        None
    } else {
        match s[0] {
            Ok(_) => first_error(s.drop_first()),
            Err(e) => Some(e),
        }
    }
}

/// The results of `s` up to and including its first error; all of them where
/// it has none.
pub open spec fn results_through_error<T, E>(s: Seq<Result<T, E>>) -> Seq<Result<T, E>>
    decreases s.len(),
{
    if s.len() == 0 {
        Seq::empty()
    } else {
        match s[0] {
            Ok(_) => seq![s[0]] + results_through_error(s.drop_first()),
            Err(_) => seq![s[0]],
        }
    }
}

/// Hands out results in order until an error, which it hands out once; after
/// that, nothing.
pub struct ErrorIter<T, E> {
    /// The results not yet taken, the next one last.
    rest: Vec<Result<T, E>>,
    peeked: Option<Result<T, E>>,
    error: bool,
}

impl<T, E> ErrorIter<T, E> {
    /// The results not yet taken from below.
    pub closed spec fn remaining(&self) -> Seq<Result<T, E>> {
        self.rest@.reverse()
    }

    /// The result peeked at and not yet handed out.
    pub closed spec fn peeked(&self) -> Option<Result<T, E>> {
        self.peeked
    }

    /// The results still to come: the one peeked at, if any, and then those
    /// not yet taken from below.
    pub open spec fn pending(&self) -> Seq<Result<T, E>> {
        match self.peeked() {
            Some(p) => seq![p] + self.remaining(),
            None => self.remaining(),
        }
    }

    /// Whether an error was handed out.
    pub closed spec fn failed(&self) -> bool {
        self.error
    }

    /// An iterator over `items`.
    pub fn new(items: Vec<Result<T, E>>) -> (r: ErrorIter<T, E>)
        ensures
            r.remaining() == items@,
            r.peeked() is None,
            !r.failed(),
    {
        let ghost all = items@;
        let mut items = items;
        let mut rest: Vec<Result<T, E>> = Vec::new();
        while items.len() > 0
            invariant
                items@ + rest@.reverse() == all,
            decreases items@.len(),
        {
            let ghost before = items@;
            let item = items.pop().unwrap();
            rest.push(item);
            proof {
                assert(items@ + rest@.reverse() =~= before + rest@.drop_last().reverse());
            }
        }
        proof {
            assert(rest@.reverse() =~= all);
        }
        ErrorIter { rest, peeked: None, error: false }
    }

    /// Takes the next result from below.
    fn inner_next(&mut self) -> (r: Option<Result<T, E>>)
        ensures
            old(self).remaining().len() == 0 ==> r is None && final(self).remaining() == old(self).remaining(),
            old(self).remaining().len() > 0 ==> r == Some(old(self).remaining()[0]) && final(self).remaining() == old(self).remaining().drop_first(),
            final(self).peeked() == old(self).peeked(),
            final(self).failed() == old(self).failed(),
    {
        let r = self.rest.pop();
        proof {
            if old(self).rest@.len() > 0 {
                assert(self.remaining() =~= old(self).remaining().drop_first());
            }
        }
        r
    }

    /// The next result: the one peeked at, or else the next from below. An
    /// error is handed out once; after it, nothing is.
    pub fn next(&mut self) -> (r: Option<Result<T, E>>)
        ensures
            old(self).failed() ==> r is None && *final(self) == *old(self),
            !old(self).failed() ==> {
                let item = match old(self).peeked() {
                    Some(p) => Some(p),
                    None => if old(self).remaining().len() > 0 {
                        Some(old(self).remaining()[0])
                    } else {
                        None
                    },
                };
                &&& r == item
                &&& final(self).peeked() is None
                &&& final(self).failed() == (item matches Some(Err(_)))
                &&& final(self).remaining() == if old(self).peeked() is None && old(self).remaining().len()
                    > 0 {
                    old(self).remaining().drop_first()
                } else {
                    old(self).remaining()
                }
            },
    {
        if self.error {
            return None;
        }
        let item = match self.peeked.take() {
            Some(p) => Some(p),
            None => self.inner_next(),
        };
        match item {
            Some(Err(e)) => {
                self.error = true;
                Some(Err(e))
            },
            _ => item,
        }
    }

    /// Every result that `next` hands out from here on, in order: the results
    /// below up to and including the first error. Where an error was handed
    /// out before, there are none.
    pub fn collect_results(&mut self) -> (r: Vec<Result<T, E>>)
        ensures
            !old(self).failed() ==> r@ == results_through_error(old(self).pending()),
            old(self).failed() ==> r@.len() == 0,
    {
        let ghost rem0 = old(self).pending();
        let ghost failed0 = old(self).failed();
        let mut out: Vec<Result<T, E>> = Vec::new();
        let mut done = false;
        while !done
            invariant
                rem0 == old(self).pending(),
                failed0 == old(self).failed(),
                !failed0 && !done ==> !self.failed() && results_through_error(rem0) == out@
                    + results_through_error(self.pending()),
                !failed0 && done ==> results_through_error(rem0) == out@,
                failed0 ==> out@.len() == 0 && self.failed(),
            decreases self.pending().len() + if done {
                0int
            } else {
                1int
            },
        {
            let ghost rem = self.pending();
            match self.next() {
                Some(item) => {
                    proof {
                        assert(rem[0] == item);
                        assert(self.pending() =~= rem.drop_first());
                        match item {
                            Ok(_) => {
                                assert(out@.push(item) + results_through_error(rem.drop_first()) =~= out@ + (
                                seq![item] + results_through_error(rem.drop_first())));
                            },
                            Err(_) => {
                                assert(out@.push(item) =~= out@ + seq![item]);
                            },
                        }
                    }
                    out.push(item);
                    if self.error {
                        done = true;
                    }
                },
                None => {
                    proof {
                        if !failed0 {
                            assert(out@ + Seq::<Result<T, E>>::empty() =~= out@);
                        }
                    }
                    done = true;
                },
            }
        }
        out
    }

    /// Looks at the next result from below, keeping it for the next call of
    /// `next`; a result peeked at before and not handed out is replaced.
    pub fn peek(&mut self) -> (r: Option<&Result<T, E>>)
        ensures
            final(self).failed() == old(self).failed(),
            old(self).remaining().len() == 0 ==> final(self).peeked() is None && final(self).remaining()
                == old(self).remaining(),
            old(self).remaining().len() > 0 ==> final(self).peeked() == Some(old(self).remaining()[0])
                && final(self).remaining() == old(self).remaining().drop_first(),
            r == match final(self).peeked() {
                Some(p) => Some(&p),
                None => None,
            },
    {
        self.peeked = self.inner_next();
        self.peeked.as_ref()
    }

    /// Takes the values up to the first error.
    pub fn take_until_error(self) -> (r: TakeUntilError<T, E>)
        ensures
            r.inner() == self,
            r.taken_error() is None,
    {
        TakeUntilError::new(self)
    }
}

/// Hands out the values of an `ErrorIter` until its first error, which it
/// keeps.
pub struct TakeUntilError<T, E> {
    iter: ErrorIter<T, E>,
    error: Option<E>,
}

impl<T, E> TakeUntilError<T, E> {
    /// The results below.
    pub closed spec fn inner(&self) -> ErrorIter<T, E> {
        self.iter
    }

    /// The error taken, if any.
    pub closed spec fn taken_error(&self) -> Option<E> {
        self.error
    }

    /// Takes values from `iter` until an error.
    pub fn new(iter: ErrorIter<T, E>) -> (r: TakeUntilError<T, E>)
        ensures
            r.inner() == iter,
            r.taken_error() is None,
    {
        TakeUntilError { iter, error: None }
    }

    /// The next value: none where an error was taken; where the next result
    /// is an error, it is taken and kept, and there is no value. The result
    /// looked at is taken from below; where the results below had already
    /// handed out an error, it stays peeked at and nothing is handed out.
    pub fn next(&mut self) -> (r: Option<T>)
        ensures
            old(self).taken_error() is Some ==> r is None && *final(self) == *old(self),
            old(self).taken_error() is None ==> {
                let it = old(self).inner();
                let item = if it.remaining().len() > 0 {
                    Some(it.remaining()[0])
                } else {
                    None
                };
                &&& final(self).inner().remaining() == if it.remaining().len() > 0 {
                    it.remaining().drop_first()
                } else {
                    it.remaining()
                }
                &&& final(self).inner().peeked() == if it.failed() {
                    item
                } else {
                    None
                }
                &&& final(self).inner().failed() == (it.failed() || item matches Some(Err(_)))
                &&& if it.failed() {
                    r is None && final(self).taken_error() is None
                } else {
                    match item {
                        Some(Err(e)) => r is None && final(self).taken_error() == Some(e),
                        Some(Ok(v)) => r == Some(v) && final(self).taken_error() is None,
                        None => r is None && final(self).taken_error() is None,
                    }
                }
            },
    {
        if self.error.is_some() {
            return None;
        }
        let is_error = match self.iter.peek() {
            Some(Err(_)) => true,
            _ => false,
        };
        if is_error {
            self.error = match self.iter.next() {
                Some(Err(e)) => Some(e),
                _ => None,
            };
            return None;
        }
        match self.iter.next() {
            Some(Ok(v)) => Some(v),
            _ => None,
        }
    }

    /// All values up to the first error below, in order; that error, if there
    /// is one, is taken and kept. Where an error was taken or handed out
    /// before, there are no values.
    pub fn collect_values(&mut self) -> (r: Vec<T>)
        ensures
            old(self).taken_error() is None && !old(self).inner().failed() ==> {
                &&& r@ == values_before_error(old(self).inner().remaining())
                &&& final(self).taken_error() == first_error(old(self).inner().remaining())
            },
            old(self).taken_error() is Some || old(self).inner().failed() ==> r@.len() == 0
                && final(self).taken_error() == old(self).taken_error(),
    {
        let ghost good = old(self).taken_error() is None && !old(self).inner().failed();
        let ghost rem0 = old(self).inner().remaining();
        let mut out: Vec<T> = Vec::new();
        let mut done = false;
        while !done
            invariant
                good == (old(self).taken_error() is None && !old(self).inner().failed()),
                rem0 == old(self).inner().remaining(),
                good && !done ==> self.taken_error() is None && !self.inner().failed()
                    && values_before_error(rem0) == out@ + values_before_error(self.inner().remaining())
                    && first_error(rem0) == first_error(self.inner().remaining()),
                good && done ==> values_before_error(rem0) == out@ && first_error(rem0)
                    == self.taken_error(),
                !good ==> out@.len() == 0 && self.taken_error() == old(self).taken_error() && (
                self.taken_error() is Some || self.inner().failed()),
            decreases self.inner().remaining().len() + if done {
                0int
            } else {
                1int
            },
        {
            let ghost rem = self.inner().remaining();
            match self.next() {
                Some(v) => {
                    proof {
                        assert(rem[0] == Ok::<T, E>(v));
                        assert(values_before_error(rem) == seq![v] + values_before_error(
                            rem.drop_first(),
                        ));
                        assert(out@.push(v) + values_before_error(rem.drop_first()) =~= out@ + (seq![v]
                            + values_before_error(rem.drop_first())));
                    }
                    out.push(v);
                },
                None => {
                    proof {
                        if good {
                            assert(out@ + Seq::<T>::empty() =~= out@);
                        }
                    }
                    done = true;
                },
            }
        }
        out
    }

    /// The error that ended the values, if one did.
    pub fn error(self) -> (r: Option<E>)
        ensures
            r == self.taken_error(),
    {
        self.error
    }
}

} // verus!
