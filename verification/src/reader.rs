//! Decoding a stream of bytes into UTF-8 characters with their positions.

use vstd::prelude::*;

use crate::{
    source::Position,
    text::{char_is_whitespace, is_white_space, utf8_decode},
};

verus! {

/// A character, and the position in its stream where it was read.
#[derive(Clone, Copy, Debug)]
pub struct Char {
    pub c: char,
    pub pos: Position,
}

impl Char {
    /// Whether the character is whitespace.
    pub fn is_whitespace(&self) -> (r: bool)
        ensures
            r == is_white_space(self.c),
    {
        char_is_whitespace(self.c)
    }
}

/// Why no character could be read.
#[derive(Clone, Copy, Debug, PartialEq, Eq, Structural)]
pub enum Error {
    /// The stream ended, or an error was reported before.
    EndOfStream,
    /// The four bytes from `index` on begin no UTF-8 character.
    Utf8 { index: usize },
}

/// Converts a stream of bytes into a stream of UTF-8 characters.
pub struct Reader {
    input: Vec<u8>,
    cursor: usize,
    done: bool,
    next_pos: Position,
}

/// What a reader is: its bytes, how many were consumed, whether it has
/// stopped, and the position of the next character.
pub struct ReaderState {
    pub input: Seq<u8>,
    pub cursor: int,
    pub done: bool,
    pub next_pos: Position,
}

/// Whether the `k` bytes from `start` on are in the stream and are valid UTF-8.
pub open spec fn valid_window(input: Seq<u8>, start: int, k: int) -> bool {
    start + k <= input.len() && vstd::utf8::valid_utf8(input.subrange(start, start + k))
}

/// The number of bytes of the shortest valid UTF-8 prefix, of at most four
/// bytes, of the stream from `start` on; 0 if there is none.
pub open spec fn char_len(input: Seq<u8>, start: int) -> int {
    if valid_window(input, start, 1) {
        1
    } else if valid_window(input, start, 2) {
        2
    } else if valid_window(input, start, 3) {
        3
    } else if valid_window(input, start, 4) {
        4
    } else {
        0
    }
}

/// The position after reading `c`, which took `k` bytes at `pos`.
pub open spec fn advance(pos: Position, c: char, k: int) -> Position {
    if c == '\n' {
        Position { line: (pos.line + 1) as usize, column: 0, index: (pos.index + k) as usize }
    } else {
        Position { line: pos.line, column: (pos.column + 1) as usize, index: (pos.index + k) as usize }
    }
}

/// One read: the first character of the shortest valid prefix of at most four
/// bytes; the end of the stream where the stream ends before a character is
/// complete; a UTF-8 error where four bytes give none. After an error every
/// read reports the end of the stream.
pub open spec fn reader_step(s: ReaderState) -> (Result<Char, Error>, ReaderState) {
    if s.done {
        (Err(Error::EndOfStream), s)
    } else {
        let k = char_len(s.input, s.cursor);
        if k > 0 {
            let c = vstd::utf8::decode_utf8(s.input.subrange(s.cursor, s.cursor + k))[0];
            (
                Ok(Char { c, pos: s.next_pos }),
                ReaderState {
                    input: s.input,
                    cursor: s.cursor + k,
                    done: false,
                    next_pos: advance(s.next_pos, c, k),
                },
            )
        } else if s.input.len() - s.cursor < 4 {
            (Err(Error::EndOfStream), ReaderState { done: true, ..s })
        } else {
            (Err(Error::Utf8 { index: s.cursor as usize }), ReaderState { done: true, ..s })
        }
    }
}

/// A read that yields a character consumes at least one byte.
pub proof fn lemma_step_consumes(s: ReaderState)
    requires
        reader_step(s).0 is Ok,
    ensures
        reader_step(s).1.cursor > s.cursor,
        reader_step(s).1.input == s.input,
        !reader_step(s).1.done,
{
}

/// The index of the next character is the number of bytes consumed.
pub proof fn law_index_counts_bytes(s: ReaderState)
    requires
        s.next_pos.index == s.cursor,
        0 <= s.cursor <= s.input.len(),
        s.input.len() <= usize::MAX,
    ensures
        reader_step(s).1.next_pos.index == reader_step(s).1.cursor,
{
}

/// A new line begins after each newline character: the next character stands
/// in column 0 of the following line.
pub proof fn law_newline_starts_line(s: ReaderState)
    requires
        reader_step(s).0 matches Ok(c) && c.c == '\n',
        s.next_pos.line < usize::MAX,
    ensures
        reader_step(s).1.next_pos.line == s.next_pos.line + 1,
        reader_step(s).1.next_pos.column == 0,
{
}

impl Reader {
    /// Counters stay within the consumed bytes, so they cannot overflow.
    #[verifier::type_invariant]
    spec fn well_formed(self) -> bool {
        &&& self.cursor <= self.input@.len()
        &&& self.next_pos.index <= self.cursor
        &&& self.next_pos.line <= self.cursor
        &&& self.next_pos.column <= self.cursor
    }

    /// The reader's state.
    pub closed spec fn state(&self) -> ReaderState {
        ReaderState {
            input: self.input@,
            cursor: self.cursor as int,
            done: self.done,
            next_pos: self.next_pos,
        }
    }

    /// A reader at the start of `input`.
    pub fn new(input: Vec<u8>) -> (r: Reader)
        ensures
            r.state() == (ReaderState {
                input: input@,
                cursor: 0,
                done: false,
                next_pos: Position { line: 0, column: 0, index: 0 },
            }),
    {
        Reader { input, cursor: 0, done: false, next_pos: Position { line: 0, column: 0, index: 0 } }
    }

    /// The position of the next character.
    pub fn next_position(&self) -> (r: Position)
        ensures
            r == self.state().next_pos,
            0 <= self.state().cursor <= self.state().input.len(),
    {
        proof {
            use_type_invariant(self);
        }
        self.next_pos
    }

    /// Reads the next character.
    pub fn next(&mut self) -> (r: Result<Char, Error>)
        ensures
            (r, final(self).state()) == reader_step(old(self).state()),
    {
        proof {
            use_type_invariant(&*self);
        }
        if self.done {
            return Err(Error::EndOfStream);
        }
        let len = self.input.len();
        let cursor = self.cursor;
        let mut k: usize = 1;
        while k <= 4
            invariant
                1 <= k <= 4,
                self.state() == old(self).state(),
                !self.done,
                cursor == self.cursor,
                len == self.input@.len(),
                cursor <= len,
                self.next_pos.index <= cursor,
                self.next_pos.line <= cursor,
                self.next_pos.column <= cursor,
                forall|j: int| 1 <= j < k ==> !valid_window(self.input@, cursor as int, j),
            decreases 5 - k,
        {
            if k > len - cursor {
                self.done = true;
                return Err(Error::EndOfStream);
            }
            let window = vstd::slice::slice_subrange(self.input.as_slice(), cursor, cursor + k);
            match utf8_decode(window) {
                Some(s) => {
                    let ghost bytes = window@;
                    proof {
                        assert(bytes.len() > 0);
                        assert(s@ == vstd::utf8::decode_utf8(bytes));
                        assert(s@.len() > 0) by {
                            reveal_with_fuel(vstd::utf8::decode_utf8, 2);
                        }
                        broadcast use vstd::string::axiom_spec_iter, vstd::string::next_postcondition;
                    }
                    let mut chars = s.as_str().chars();
                    let first = chars.next();
                    match first {
                        Some(c) => {
                            let pos = self.next_pos;
                            self.cursor = cursor + k;
                            let next_pos = if c == '\n' {
                                Position { line: pos.line + 1, column: 0, index: pos.index + k }
                            } else {
                                Position { line: pos.line, column: pos.column + 1, index: pos.index + k }
                            };
                            self.next_pos = next_pos;
                            return Ok(Char { c, pos });
                        },
                        None => {
                            proof {
                                assert(false);
                            }
                            return Err(Error::EndOfStream);
                        },
                    }
                },
                None => {
                    if k == 4 {
                        self.done = true;
                        return Err(Error::Utf8 { index: cursor });
                    }
                    k = k + 1;
                },
            }
        }
        proof {
            assert(false);
        }
        Err(Error::EndOfStream)
    }
}

} // verus!
