//! Splitting a stream of characters into tokens.

use vstd::prelude::*;

use crate::{
    reader::{self, reader_step, Char, Reader, ReaderState},
    source::{Position, Span},
    text::{chars_of, decimal, is_white_space, parse_bool, parse_bool_spec, parse_u32, parse_u32_spec, string_push},
    value::FloatValue,
};

verus! {

/// Recognizes floating-point literals. Floating-point numbers are computed by
/// the embedding application; the language only carries them.
pub trait FloatSyntax {
    /// The float that `word` denotes, if it denotes one.
    fn parse_float(&self, word: &str) -> Option<FloatValue>;
}

/// A float syntax that recognizes no word as a float.
pub struct NoFloats;

impl FloatSyntax for NoFloats {
    fn parse_float(&self, word: &str) -> (r: Option<FloatValue>)
        ensures
            r is None,
    {
        None
    }
}

/// What a token is.
#[derive(Debug)]
pub enum TokenKind {
    ListOpen,
    ListClose,
    Bool(bool),
    Float(FloatValue),
    Number(u32),
    String(String),
    Symbol(String),
    Word(String),
}

/// A token kind, with its texts as character sequences.
pub enum TokenKindView {
    ListOpen,
    ListClose,
    Bool(bool),
    Float(FloatValue),
    Number(u32),
    String(Seq<char>),
    Symbol(Seq<char>),
    Word(Seq<char>),
}

impl View for TokenKind {
    type V = TokenKindView;

    open spec fn view(&self) -> TokenKindView {
        match self {
            TokenKind::ListOpen => TokenKindView::ListOpen,
            TokenKind::ListClose => TokenKindView::ListClose,
            TokenKind::Bool(b) => TokenKindView::Bool(*b),
            TokenKind::Float(f) => TokenKindView::Float(*f),
            TokenKind::Number(n) => TokenKindView::Number(*n),
            TokenKind::String(s) => TokenKindView::String(s@),
            TokenKind::Symbol(s) => TokenKindView::Symbol(s@),
            TokenKind::Word(s) => TokenKindView::Word(s@),
        }
    }
}

/// A token, with the span of source it was read from.
#[derive(Debug)]
pub struct Token {
    pub kind: TokenKind,
    pub span: Option<Span>,
}

/// A token, with its texts as character sequences.
pub struct TokenView {
    pub kind: TokenKindView,
    pub span: Option<Span>,
}

impl View for Token {
    type V = TokenView;

    open spec fn view(&self) -> TokenView {
        TokenView { kind: self.kind@, span: self.span }
    }
}

/// Why no token could be read.
#[derive(Debug, PartialEq, Eq, Structural)]
pub enum Error {
    Reader(reader::Error),
    UnexpectedEscapeCode(char),
}

/// The kind of a token that is neither a list delimiter nor a float: a
/// boolean, then a number, then a word.
pub open spec fn plain_word_kind(word: Seq<char>) -> TokenKindView {
    match parse_bool_spec(word) {
        Some(b) => TokenKindView::Bool(b),
        None => match parse_u32_spec(word) {
            Some(n) => TokenKindView::Number(n),
            None => TokenKindView::Word(word),
        },
    }
}

/// The kind of a token that ends at whitespace, before floats are recognized.
pub open spec fn word_kind(word: Seq<char>) -> TokenKindView {
    if word == seq!['['] {
        TokenKindView::ListOpen
    } else if word == seq![']'] {
        TokenKindView::ListClose
    } else {
        plain_word_kind(word)
    }
}

/// The kind of a word, given what the float syntax made of it.
pub open spec fn classified(word: Seq<char>, float: Option<FloatValue>) -> TokenKindView {
    match plain_word_kind(word) {
        TokenKindView::Word(w) => match float {
            Some(f) => TokenKindView::Float(f),
            None => TokenKindView::Word(w),
        },
        k => k,
    }
}

/// A kind that is `expected`, or a float where `expected` is a word that the
/// float syntax may take for a float.
pub open spec fn kind_refines(actual: TokenKindView, expected: TokenKindView) -> bool {
    actual == expected || (expected is Word && actual is Float)
}

/// A token that is `expected`, up to floats.
pub open spec fn token_refines(actual: TokenView, expected: TokenView) -> bool {
    actual.span == expected.span && kind_refines(actual.kind, expected.kind)
}

/// The states of the tokenizer.
#[derive(Clone, Copy, Debug, PartialEq, Eq, Structural)]
pub enum State {
    Initial,
    Comment,
    String,
    StringEscape,
    Symbol,
    Word,
}

/// The span of a token after a character at `pos` became part of it.
pub open spec fn process_span(span: Option<Span>, name: String, pos: Position) -> Option<Span> {
    match span {
        None => Some(Span { stream_name: name, start: pos, end: pos }),
        Some(s) => Some(Span { end: pos, ..s }),
    }
}

/// What one character does to the tokenizer.
pub enum Transition {
    Continue(State, Seq<char>, Option<Span>),
    Emit(TokenView),
    Fail(Error),
}

/// The transition on character `c` in `state`, with the characters `buf`
/// stored and the span `span` covered so far.
pub open spec fn transition(
    state: State,
    buf: Seq<char>,
    span: Option<Span>,
    name: String,
    c: Char,
) -> Transition {
    let ws = is_white_space(c.c);
    let processed = process_span(span, name, c.pos);
    match state {
        State::Initial => if c.c == '#' {
            Transition::Continue(State::Comment, buf, span)
        } else if c.c == '"' {
            Transition::Continue(State::String, buf, processed)
        } else if c.c == ':' {
            Transition::Continue(State::Symbol, buf, processed)
        } else if !ws {
            Transition::Continue(State::Word, buf.push(c.c), processed)
        } else {
            Transition::Continue(State::Initial, buf, span)
        },
        State::Comment => if c.c == '\n' {
            Transition::Continue(State::Initial, buf, span)
        } else {
            Transition::Continue(State::Comment, buf, span)
        },
        State::String => if c.c == '\\' {
            Transition::Continue(State::StringEscape, buf, processed)
        } else if c.c == '"' {
            Transition::Emit(TokenView { kind: TokenKindView::String(buf), span: processed })
        } else {
            Transition::Continue(State::String, buf.push(c.c), processed)
        },
        State::StringEscape => if c.c == 'n' {
            Transition::Continue(State::String, buf.push('\n'), processed)
        } else {
            Transition::Fail(Error::UnexpectedEscapeCode(c.c))
        },
        State::Symbol => if ws {
            Transition::Emit(TokenView { kind: TokenKindView::Symbol(buf), span })
        } else {
            Transition::Continue(State::Symbol, buf.push(c.c), processed)
        },
        State::Word => if ws {
            Transition::Emit(TokenView { kind: word_kind(buf), span })
        } else {
            Transition::Continue(State::Word, buf.push(c.c), processed)
        },
    }
}

/// Words are delimited by whitespace, and which whitespace does not matter:
/// outside strings and comments, two whitespace characters at the same place
/// make the tokenizer do the same.
pub proof fn law_whitespace_is_interchangeable(
    state: State,
    buf: Seq<char>,
    span: Option<Span>,
    name: String,
    a: Char,
    b: Char,
)
    requires
        state is Initial || state is Symbol || state is Word,
        is_white_space(a.c),
        is_white_space(b.c),
        a.pos == b.pos,
    ensures
        transition(state, buf, span, name, a) == transition(state, buf, span, name, b),
{
    assert(a.c != '#' && a.c != '"' && a.c != ':') by {
        assert(('#' as u32) == 35 && ('"' as u32) == 34 && (':' as u32) == 58);
    }
    assert(b.c != '#' && b.c != '"' && b.c != ':') by {
        assert(('#' as u32) == 35 && ('"' as u32) == 34 && (':' as u32) == 58);
    }
}

/// The transitions that the characters `cs` make one after the other, from
/// `state` with `buf` and `span`, up to the first that does not continue.
pub open spec fn run_chars(state: State, buf: Seq<char>, span: Option<Span>, name: String, cs: Seq<Char>) -> Transition
    decreases cs.len(),
{
    if cs.len() == 0 {
        Transition::Continue(state, buf, span)
    } else {
        match transition(state, buf, span, name, cs[0]) {
            Transition::Continue(s2, b2, sp2) => run_chars(s2, b2, sp2, name, cs.drop_first()),
            t => t,
        }
    }
}

/// Between tokens, a run of whitespace of any length and kind leaves the
/// tokenizer as it was; ending a word or symbol, any run of whitespace ends
/// it with the same token. So runs of whitespace may be replaced by other
/// runs without changing the tokens read.
pub proof fn law_whitespace_runs_are_interchangeable(
    state: State,
    buf: Seq<char>,
    span: Option<Span>,
    name: String,
    a: Seq<Char>,
    b: Seq<Char>,
)
    requires
        state is Initial || state is Symbol || state is Word,
        forall|i: int| 0 <= i < a.len() ==> is_white_space(#[trigger] a[i].c),
        forall|i: int| 0 <= i < b.len() ==> is_white_space(#[trigger] b[i].c),
    ensures
        state is Initial ==> run_chars(state, buf, span, name, a) == Transition::Continue(state, buf, span),
        !(state is Initial) && a.len() > 0 && b.len() > 0 ==> run_chars(state, buf, span, name, a)
            == run_chars(state, buf, span, name, b),
    decreases a.len(),
{
    if a.len() > 0 {
        assert(is_white_space(a[0].c));
        assert(a[0].c != '#' && a[0].c != '"' && a[0].c != ':') by {
            assert(('#' as u32) == 35 && ('"' as u32) == 34 && (':' as u32) == 58);
        }
        if state is Initial {
            law_whitespace_runs_are_interchangeable(state, buf, span, name, a.drop_first(), b);
        }
        if b.len() > 0 {
            assert(is_white_space(b[0].c));
        }
    }
}

/// Inside a string every character but a backslash and a quote is kept as
/// it is, whitespace included, and the string goes on.
pub proof fn law_string_keeps_characters(buf: Seq<char>, span: Option<Span>, name: String, c: Char)
    requires
        c.c != '\\',
        c.c != '"',
    ensures
        transition(State::String, buf, span, name, c) == Transition::Continue(
            State::String,
            buf.push(c.c),
            process_span(span, name, c.pos),
        ),
{
}

/// Comments start with `#` and last until the next line break; nothing in
/// them is part of a token.
pub proof fn law_comments_end_at_line_breaks(
    buf: Seq<char>,
    span: Option<Span>,
    name: String,
    c: Char,
)
    ensures
        transition(State::Initial, buf, span, name, Char { c: '#', pos: c.pos }) == Transition::Continue(
            State::Comment,
            buf,
            span,
        ),
        transition(State::Comment, buf, span, name, c) == Transition::Continue(
            if c.c == '\n' { State::Initial } else { State::Comment },
            buf,
            span,
        ),
{
}

/// The character of a decimal digit is a digit of that value.
proof fn lemma_digit_char(d: nat)
    requires
        d < 10,
    ensures
        crate::text::is_digit(crate::text::digit_char(d)),
        crate::text::digit_value(crate::text::digit_char(d)) == d,
{
    assert(('0' as u32) == 48 && ('1' as u32) == 49 && ('2' as u32) == 50 && ('3' as u32) == 51
        && ('4' as u32) == 52 && ('5' as u32) == 53 && ('6' as u32) == 54 && ('7' as u32) == 55
        && ('8' as u32) == 56 && ('9' as u32) == 57);
}

/// The decimal form of a number is made of digits and denotes the number.
proof fn lemma_decimal_digits(n: nat)
    ensures
        decimal(n).len() >= 1,
        forall|i: int| 0 <= i < decimal(n).len() ==> crate::text::is_digit(#[trigger] decimal(n)[i]),
        crate::text::digits_value(decimal(n)) == n,
    decreases n,
{
    if n < 10 {
        lemma_digit_char(n);
        assert(decimal(n).drop_last() =~= Seq::<char>::empty());
        assert(crate::text::digits_value(Seq::<char>::empty()) == 0);
    } else {
        lemma_decimal_digits(n / 10);
        lemma_digit_char(n % 10);
        let s = decimal(n / 10);
        assert(decimal(n).drop_last() =~= s);
        assert(decimal(n).last() == crate::text::digit_char(n % 10));
        assert(crate::text::digits_value(decimal(n)) == crate::text::digits_value(s) * 10
            + crate::text::digit_value(crate::text::digit_char(n % 10)));
        assert((n / 10) * 10 + n % 10 == n);
        assert(forall|i: int| 0 <= i < decimal(n).len() ==> crate::text::is_digit(#[trigger] decimal(n)[i]))
            by {
            assert forall|i: int| 0 <= i < decimal(n).len() implies crate::text::is_digit(#[trigger] decimal(n)[i]) by {
                if i < s.len() {
                    assert(decimal(n)[i] == s[i]);
                }
            }
        }
    }
}

/// A number as `print` writes it reads back as that number.
pub proof fn law_number_text_reads_back(n: u32)
    ensures
        word_kind(decimal(n as nat)) == TokenKindView::Number(n),
{
    let d = decimal(n as nat);
    lemma_decimal_digits(n as nat);
    assert(crate::text::is_digit(d[0]));
    assert(d[0] != '+' && d[0] != '[' && d[0] != ']' && d[0] != 't' && d[0] != 'f') by {
        assert(('+' as u32) == 43 && ('[' as u32) == 91 && (']' as u32) == 93 && ('t' as u32) == 116
            && ('f' as u32) == 102 && ('0' as u32) == 48 && ('9' as u32) == 57);
    }
    assert(crate::text::u32_digits(d) == d);
    assert(d != seq!['[']);
    assert(d != seq![']']);
    assert(d != seq!['t', 'r', 'u', 'e']);
    assert(d != seq!['f', 'a', 'l', 's', 'e']);
}

/// Tokenizing from `state` on: the token or error, the reader's state after,
/// and the characters read. A word or symbol that the stream ends in is a
/// token; a string that it ends in is not.
pub open spec fn token_run(
    state: State,
    buf: Seq<char>,
    span: Option<Span>,
    name: String,
    rs: ReaderState,
) -> (Result<TokenView, Error>, ReaderState, Seq<char>)
    decreases rs.input.len() - rs.cursor,
{
    let (rc, rs2) = reader_step(rs);
    match rc {
        Err(reader::Error::EndOfStream) => match state {
            State::Word => (Ok(TokenView { kind: word_kind(buf), span }), rs2, Seq::empty()),
            State::Symbol => (
                Ok(TokenView { kind: TokenKindView::Symbol(buf), span }),
                rs2,
                Seq::empty(),
            ),
            _ => (Err(Error::Reader(reader::Error::EndOfStream)), rs2, Seq::empty()),
        },
        Err(e) => (Err(Error::Reader(e)), rs2, Seq::empty()),
        Ok(c) => if rs2.cursor <= rs.cursor || rs2.cursor > rs2.input.len() || rs2.input
            != rs.input {
            (Err(Error::Reader(reader::Error::EndOfStream)), rs2, Seq::empty())
        } else {
            match transition(state, buf, span, name, c) {
                Transition::Continue(s2, b2, sp2) => {
                    let t = token_run(s2, b2, sp2, name, rs2);
                    (t.0, t.1, seq![c.c] + t.2)
                },
                Transition::Emit(tv) => (Ok(tv), rs2, seq![c.c]),
                Transition::Fail(e) => (Err(e), rs2, seq![c.c]),
            }
        },
    }
}

/// The token that tokenizing a reader in state `rs` gives.
pub open spec fn next_token_spec(name: String, rs: ReaderState) -> (
    Result<TokenView, Error>,
    ReaderState,
    Seq<char>,
) {
    token_run(State::Initial, Seq::empty(), None, name, rs)
}

impl TokenKind {
    /// The kind of a word, given what the float syntax made of it: a boolean,
    /// then a number, then the float, then a word.
    pub fn classify_word(word: String, float: Option<FloatValue>) -> (r: TokenKind)
        ensures
            r@ == classified(word@, float),
    {
        match parse_bool(word.as_str()) {
            Some(b) => TokenKind::Bool(b),
            None => match parse_u32(word.as_str()) {
                Some(n) => TokenKind::Number(n),
                None => match float {
                    Some(f) => TokenKind::Float(f),
                    None => TokenKind::Word(word),
                },
            },
        }
    }

    /// The kind of a word: a boolean, then a number, then a float if the
    /// float syntax takes it for one, then a word.
    pub fn parse_word<F: FloatSyntax>(word: String, floats: &F) -> (r: TokenKind)
        ensures
            kind_refines(r@, plain_word_kind(word@)),
    {
        let plain = parse_bool(word.as_str()).is_some() || parse_u32(word.as_str()).is_some();
        if plain {
            TokenKind::classify_word(word, None)
        } else {
            let float = floats.parse_float(word.as_str());
            TokenKind::classify_word(word, float)
        }
    }
}

/// The characters and span of the token being read.
pub struct TokenBuilder {
    pub buffer: String,
    pub stream_name: String,
    pub span: Option<Span>,
}

impl TokenBuilder {
    /// An empty builder for a token of stream `stream_name`.
    pub fn new(stream_name: String) -> (r: TokenBuilder)
        ensures
            r.buffer@ == Seq::<char>::empty(),
            r.stream_name == stream_name,
            r.span is None,
    {
        TokenBuilder { buffer: String::new(), stream_name, span: None }
    }

    /// Extends the token's span over `c`.
    pub fn process(&mut self, c: Char)
        ensures
            final(self).buffer == old(self).buffer,
            final(self).stream_name == old(self).stream_name,
            final(self).span == process_span(old(self).span, old(self).stream_name, c.pos),
    {
        let span = self.span.take();
        self.span = match span {
            Some(s) => Some(Span { stream_name: s.stream_name, start: s.start, end: c.pos }),
            None => Some(Span { stream_name: self.stream_name.clone(), start: c.pos, end: c.pos }),
        };
    }

    /// Extends the token's span over `c` and appends its character.
    pub fn store(&mut self, c: Char)
        ensures
            final(self).buffer@ == old(self).buffer@.push(c.c),
            final(self).stream_name == old(self).stream_name,
            final(self).span == process_span(old(self).span, old(self).stream_name, c.pos),
    {
        self.process(c);
        string_push(&mut self.buffer, c.c);
    }

    /// A string token of the characters stored.
    pub fn into_string(self) -> (r: Token)
        ensures
            r@ == (TokenView { kind: TokenKindView::String(self.buffer@), span: self.span }),
    {
        Token { kind: TokenKind::String(self.buffer), span: self.span }
    }

    /// A symbol token of the characters stored.
    pub fn into_symbol(self) -> (r: Token)
        ensures
            r@ == (TokenView { kind: TokenKindView::Symbol(self.buffer@), span: self.span }),
    {
        Token { kind: TokenKind::Symbol(self.buffer), span: self.span }
    }

    /// A token of the word stored: a list delimiter, a boolean, a number, a
    /// float or a word.
    pub fn into_word<F: FloatSyntax>(self, floats: &F) -> (r: Token)
        ensures
            token_refines(r@, TokenView { kind: word_kind(self.buffer@), span: self.span }),
    {
        let cs = chars_of(self.buffer.as_str());
        let kind = if cs.len() == 1 && cs[0] == '[' {
            proof {
                assert(self.buffer@ =~= seq!['[']);
            }
            TokenKind::ListOpen
        } else if cs.len() == 1 && cs[0] == ']' {
            proof {
                assert(self.buffer@ =~= seq![']']);
                assert(self.buffer@ != seq!['[']);
            }
            TokenKind::ListClose
        } else {
            proof {
                if self.buffer@ == seq!['['] {
                    assert(cs@[0] == '[');
                }
                if self.buffer@ == seq![']'] {
                    assert(cs@[0] == ']');
                }
            }
            TokenKind::parse_word(self.buffer, floats)
        };
        Token { kind, span: self.span }
    }
}

/// Splits the characters of a reader into tokens.
pub struct Tokenizer {
    reader: Reader,
    stream: String,
}

impl Tokenizer {
    /// The reader's state.
    pub closed spec fn reader_state(&self) -> ReaderState {
        self.reader.state()
    }

    /// The name of the stream, which the spans of tokens carry.
    pub closed spec fn stream_name(&self) -> String {
        self.stream
    }

    /// A tokenizer of the characters of `reader`, from the stream `stream`.
    pub fn new(reader: Reader, stream: String) -> (r: Tokenizer)
        ensures
            r.reader_state() == reader.state(),
            r.stream_name() == stream,
    {
        Tokenizer { reader, stream }
    }

    /// The position of the next character.
    pub fn position(&self) -> (r: Position)
        ensures
            r == self.reader_state().next_pos,
            0 <= self.reader_state().cursor <= self.reader_state().input.len(),
    {
        self.reader.next_position()
    }

    /// Reads the next token, appending every character read to `source`.
    pub fn next_token<F: FloatSyntax>(&mut self, floats: &F, source: &mut String) -> (r: Result<
        Token,
        Error,
    >)
        ensures
            ({
                let run = next_token_spec(old(self).stream_name(), old(self).reader_state());
                &&& final(self).stream_name() == old(self).stream_name()
                &&& final(self).reader_state() == run.1
                &&& final(source)@ == old(source)@ + run.2
                &&& (r is Ok <==> run.0 is Ok)
                &&& (r matches Ok(t) ==> token_refines(t@, run.0->Ok_0))
                &&& (r matches Err(e) ==> run.0 == Err::<TokenView, Error>(e))
            }),
    {
        let ghost name = self.stream;
        let ghost goal = next_token_spec(name, self.reader.state());
        let ghost src0 = source@;
        let mut state = State::Initial;
        let mut builder = TokenBuilder::new(self.stream.clone());
        self.reader.next_position();
        loop
            invariant
                self.stream == name,
                name == old(self).stream_name(),
                goal == next_token_spec(old(self).stream_name(), old(self).reader_state()),
                src0 == old(source)@,
                builder.stream_name == name,
                self.reader.state().cursor <= self.reader.state().input.len(),
                ({
                    let cur = token_run(state, builder.buffer@, builder.span, name, self.reader.state());
                    &&& goal.0 == cur.0
                    &&& goal.1 == cur.1
                    &&& src0 + goal.2 == source@ + cur.2
                }),
            decreases self.reader.state().input.len() - self.reader.state().cursor,
        {
            let ghost rs = self.reader.state();
            let ghost b0 = builder.buffer@;
            let ghost sp0 = builder.span;
            let ghost st0 = state;
            let read = self.reader.next();
            let ghost rs2 = self.reader.state();
            let c = match read {
                Ok(c) => c,
                Err(e) => {
                    // A word or symbol that the stream ends in is complete.
                    if let reader::Error::EndOfStream = e {
                        match state {
                            State::Word => {
                                let t = builder.into_word(floats);
                                proof {
                                    assert(source@ =~= src0 + goal.2);
                                }
                                return Ok(t);
                            },
                            State::Symbol => {
                                let t = builder.into_symbol();
                                proof {
                                    assert(source@ =~= src0 + goal.2);
                                }
                                return Ok(t);
                            },
                            _ => {},
                        }
                    }
                    proof {
                        let cur = token_run(st0, b0, sp0, name, rs);
                        assert(reader_step(rs).0 == Err::<Char, reader::Error>(e));
                        assert(cur.0 == Err::<TokenView, Error>(Error::Reader(e)));
                        assert(cur.1 == rs2);
                        assert(goal.0 == cur.0);
                        assert(source@ =~= src0 + goal.2);
                    }
                    return Err(Error::Reader(e));
                },
            };
            proof {
                reader::lemma_step_consumes(rs);
                assert(source@.push(c.c) + token_run(
                    state, builder.buffer@, builder.span, name, rs2).2 =~= source@ + (seq![c.c]
                    + token_run(state, builder.buffer@, builder.span, name, rs2).2));
            }
            crate::text::string_push(source, c.c);
            let ghost tr = transition(st0, b0, sp0, name, c);
            match state {
                State::Initial => {
                    if c.c == '#' {
                        state = State::Comment;
                    } else if c.c == '"' {
                        state = State::String;
                        builder.process(c);
                    } else if c.c == ':' {
                        state = State::Symbol;
                        builder.process(c);
                    } else if !c.is_whitespace() {
                        state = State::Word;
                        builder.store(c);
                    }
                },
                State::Comment => {
                    if c.c == '\n' {
                        state = State::Initial;
                    }
                },
                State::String => {
                    if c.c == '\\' {
                        state = State::StringEscape;
                        builder.process(c);
                    } else if c.c == '"' {
                        builder.process(c);
                        let t = builder.into_string();
                        proof {
                            assert(source@ =~= src0 + goal.2);
                        }
                        return Ok(t);
                    } else {
                        builder.store(c);
                    }
                },
                State::StringEscape => {
                    if c.c == 'n' {
                        builder.store(Char { c: '\n', pos: c.pos });
                        state = State::String;
                    } else {
                        proof {
                            assert(source@ =~= src0 + goal.2);
                        }
                        return Err(Error::UnexpectedEscapeCode(c.c));
                    }
                },
                State::Symbol => {
                    if c.is_whitespace() {
                        let t = builder.into_symbol();
                        proof {
                            assert(source@ =~= src0 + goal.2);
                        }
                        return Ok(t);
                    }
                    builder.store(c);
                },
                State::Word => {
                    if c.is_whitespace() {
                        let t = builder.into_word(floats);
                        proof {
                            assert(source@ =~= src0 + goal.2);
                        }
                        return Ok(t);
                    }
                    builder.store(c);
                },
            }
            proof {
                assert(tr == Transition::Continue(state, builder.buffer@, builder.span));
            }
        }
    }
}

} // verus!
