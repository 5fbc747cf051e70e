//! Keeping every character that a reader hands out.

use vstd::prelude::*;

use crate::reader::{self, reader_step, Char, Reader, ReaderState};

verus! {

/// The characters that `n` reads from a reader in state `rs` hand out, in
/// order, and the reader's state after them.
pub open spec fn reads(rs: ReaderState, n: nat) -> (Seq<Char>, ReaderState)
    decreases n,
{
    if n == 0 {
        (Seq::empty(), rs)
    } else {
        let (cs, r1) = reads(rs, (n - 1) as nat);
        match reader_step(r1) {
            (Ok(c), r2) => (cs.push(c), r2),
            (Err(_), r2) => (cs, r2),
        }
    }
}

/// A reader that keeps a copy of every character it reads.
pub struct Recorder {
    reader: Reader,
    chars: Vec<Char>,
    start: Ghost<ReaderState>,
}

impl Recorder {
    /// The state of the reader below.
    pub closed spec fn reader_state(&self) -> ReaderState {
        self.reader.state()
    }

    /// The state the reader was in when recording began.
    pub closed spec fn start(&self) -> ReaderState {
        self.start@
    }

    /// Whatever was read, the characters kept are those that some number of
    /// reads from the start hand out, and the reader is where they left it.
    pub open spec fn keeps_all(&self) -> bool {
        exists|n: nat| #[trigger] reads(self.start(), n) == (self.recorded(), self.reader_state())
    }

    /// The characters read so far.
    pub closed spec fn recorded(&self) -> Seq<Char> {
        self.chars@
    }

    /// A recorder of `reader`, with nothing read yet.
    pub fn new(reader: Reader) -> (r: Recorder)
        ensures
            r.reader_state() == reader.state(),
            r.recorded() == Seq::<Char>::empty(),
            r.start() == reader.state(),
            r.keeps_all(),
    {
        let r = Recorder { reader, chars: Vec::new(), start: Ghost(reader.state()) };
        proof {
            assert(reads(r.start(), 0) == (r.recorded(), r.reader_state()));
        }
        r
    }

    /// Reads the next character, keeping it.
    pub fn next(&mut self) -> (r: Result<Char, reader::Error>)
        ensures
            (r, final(self).reader_state()) == reader_step(old(self).reader_state()),
            r matches Ok(c) ==> final(self).recorded() == old(self).recorded().push(c),
            r is Err ==> final(self).recorded() == old(self).recorded(),
            final(self).start() == old(self).start(),
            old(self).keeps_all() ==> final(self).keeps_all(),
    {
        let ghost n = choose|n: nat| #[trigger] reads(self.start(), n) == (self.recorded(), self.reader_state());
        let r = self.reader.next();
        proof {
            if old(self).keeps_all() {
                assert(reads(self.start(), n + 1) == (
                    match r { Ok(c) => old(self).recorded().push(c), Err(_) => old(self).recorded() },
                    self.reader.state(),
                ));
            }
        }
        match r {
            Ok(c) => {
                self.chars.push(c);
                proof {
                    if old(self).keeps_all() {
                        assert(reads(self.start(), n + 1) == (self.recorded(), self.reader_state()));
                    }
                }
                Ok(c)
            },
            Err(e) => {
                proof {
                    if old(self).keeps_all() {
                        assert(reads(self.start(), n + 1) == (self.recorded(), self.reader_state()));
                    }
                }
                Err(e)
            },
        }
    }

    /// The characters read.
    pub fn chars(self) -> (r: Vec<Char>)
        ensures
            r@ == self.recorded(),
    {
        self.chars
    }
}

} // verus!
