//! The stages from bytes to expressions: reader, tokenizer, parser.

use vstd::prelude::*;

use crate::{
    parser::Parser,
    reader::{Reader, ReaderState},
    source::Position,
    tokenizer::Tokenizer,
};

verus! {

/// A parser over a tokenizer over a reader of one stream.
pub struct Pipeline {
    pub parser: Parser,
}

impl Pipeline {
    /// The stages for the stream `name` with the bytes `stream`.
    pub fn new(name: String, stream: Vec<u8>) -> (r: Pipeline)
        ensures
            r.parser.stream_name() == name,
            r.parser.reader_state() == (ReaderState {
                input: stream@,
                cursor: 0,
                done: false,
                next_pos: Position { line: 0, column: 0, index: 0 },
            }),
    {
        let reader = Reader::new(stream);
        let tokenizer = Tokenizer::new(reader, name);
        let parser = Parser::new(tokenizer);
        Pipeline { parser }
    }
}

} // verus!
