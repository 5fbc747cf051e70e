//! Kari: an embeddable, interpreted, dynamically typed, stack-based language.
//!
//! The library holds the whole language pipeline: decoding source bytes into
//! characters, tokenizing, parsing, the value model, the data stack, function
//! definition and dispatch by the types on the stack, the builtin functions,
//! and the evaluator. Everything here is verified with Verus.

pub mod source;
pub mod text;
pub mod types;
pub mod value;
pub mod functions;
pub mod stack;
pub mod node;
pub mod scope;
pub mod reader;
pub mod tokenizer;
pub mod parser;
pub mod call_stack;
pub mod convert;
pub mod pipeline;
pub mod context;
pub mod interpreter;
pub mod semantics;
pub mod report;
pub mod iter;
pub mod recorder;
pub mod signature;
pub mod token_stream;
