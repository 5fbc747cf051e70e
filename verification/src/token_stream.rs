//! Whole streams of tokens, and why whitespace between tokens is free to
//! choose.
//!
//! A program reads the same whatever runs of whitespace separate its words:
//! streams whose characters differ only in the runs of whitespace, each
//! replaced by another non-empty run, give the same kinds of tokens, one
//! after the other, and end in the same error.

use vstd::prelude::*;

use crate::{
    reader::{self, reader_step, Char, ReaderState},
    source::Position,
    text::is_white_space,
    tokenizer::{next_token_spec, token_run, transition, word_kind, Error, State, TokenKindView, TokenView, Transition},
};

verus! {

/// The characters that a reader in state `rs` hands out before its first
/// error, and that error.
pub open spec fn stream_of(rs: ReaderState) -> (Seq<char>, reader::Error)
    decreases rs.input.len() - rs.cursor,
{
    let (rc, rs2) = reader_step(rs);
    match rc {
        Err(e) => (Seq::empty(), e),
        Ok(c) => if rs2.cursor <= rs.cursor || rs2.cursor > rs2.input.len() || rs2.input != rs.input {
            (Seq::empty(), reader::Error::EndOfStream)
        } else {
            let t = stream_of(rs2);
            (seq![c.c] + t.0, t.1)
        },
    }
}

/// The kinds of the tokens that tokenizing from `rs` reads one after the
/// other, and the error it ends in.
pub open spec fn token_kinds(name: String, rs: ReaderState) -> (Seq<TokenKindView>, Error)
    decreases rs.input.len() - rs.cursor,
{
    let t = next_token_spec(name, rs);
    match t.0 {
        Err(e) => (Seq::empty(), e),
        Ok(tv) => if rs.cursor < t.1.cursor && t.1.cursor <= t.1.input.len() && t.1.input == rs.input {
            let r = token_kinds(name, t.1);
            (seq![tv.kind] + r.0, r.1)
        } else {
            (seq![tv.kind], Error::Reader(reader::Error::EndOfStream))
        },
    }
}

/// A character at the start of a stream.
pub open spec fn plain_char(c: char) -> Char {
    Char { c, pos: Position { line: 0, column: 0, index: 0 } }
}

/// The kind of the token that the characters `cs`, followed by the reader
/// error `end`, give from `state` with the characters `buf` stored, or the
/// error; and how many of the characters it takes.
pub open spec fn kind_run(state: State, buf: Seq<char>, name: String, cs: Seq<char>, end: reader::Error) -> (
    Result<TokenKindView, Error>,
    nat,
)
    decreases cs.len(),
{
    if cs.len() == 0 {
        match end {
            reader::Error::EndOfStream => match state {
                State::Word => (Ok(word_kind(buf)), 0),
                State::Symbol => (Ok(TokenKindView::Symbol(buf)), 0),
                _ => (Err(Error::Reader(end)), 0),
            },
            _ => (Err(Error::Reader(end)), 0),
        }
    } else {
        match transition(state, buf, None, name, plain_char(cs[0])) {
            Transition::Continue(s2, b2, _) => {
                let t = kind_run(s2, b2, name, cs.drop_first(), end);
                (t.0, t.1 + 1)
            },
            Transition::Emit(tv) => (Ok(tv.kind), 1),
            Transition::Fail(e) => (Err(e), 1),
        }
    }
}

/// The kinds of the tokens that the characters `cs`, followed by the reader
/// error `end`, give one after the other from `state` with `buf` stored, and
/// the error they end in.
pub open spec fn kinds_from(state: State, buf: Seq<char>, name: String, cs: Seq<char>, end: reader::Error) -> (
    Seq<TokenKindView>,
    Error,
)
    decreases cs.len(),
{
    let t = kind_run(state, buf, name, cs, end);
    match t.0 {
        Err(e) => (Seq::empty(), e),
        Ok(k) => if 0 < t.1 && t.1 <= cs.len() {
            let r = kinds_from(State::Initial, Seq::empty(), name, cs.skip(t.1 as int), end);
            (seq![k] + r.0, r.1)
        } else {
            (seq![k], Error::Reader(reader::Error::EndOfStream))
        },
    }
}

/// The characters with each run of whitespace replaced by one space.
pub open spec fn squeeze(cs: Seq<char>) -> Seq<char>
    decreases cs.len(),
{
    if cs.len() == 0 {
        cs
    } else if is_white_space(cs[0]) && cs.len() > 1 && is_white_space(cs[1]) {
        squeeze(cs.drop_first())
    } else if is_white_space(cs[0]) {
        seq![' '] + squeeze(cs.drop_first())
    } else {
        seq![cs[0]] + squeeze(cs.drop_first())
    }
}

/// The characters hold neither a comment sign nor a quote.
pub open spec fn plain_text(cs: Seq<char>) -> bool {
    forall|i: int| 0 <= i < cs.len() ==> #[trigger] cs[i] != '#' && cs[i] != '"'
}

/// What one character does depends on the character alone, not on where it
/// stands or on the span so far.
proof fn lemma_transition_shape(
    state: State,
    buf: Seq<char>,
    s1: Option<crate::source::Span>,
    s2: Option<crate::source::Span>,
    n1: String,
    n2: String,
    c1: Char,
    c2: Char,
)
    requires
        c1.c == c2.c,
    ensures
        match (transition(state, buf, s1, n1, c1), transition(state, buf, s2, n2, c2)) {
            (Transition::Continue(a, b, _), Transition::Continue(x, y, _)) => a == x && b == y,
            (Transition::Emit(a), Transition::Emit(x)) => a.kind == x.kind,
            (Transition::Fail(a), Transition::Fail(x)) => a == x,
            _ => false,
        },
{
}

/// The kind of a token, or the error.
pub open spec fn kind_of(r: Result<TokenView, Error>) -> Result<TokenKindView, Error> {
    match r {
        Ok(t) => Ok(t.kind),
        Err(e) => Err(e),
    }
}

/// Tokenizing a reader gives the kind that the characters it hands out give;
/// after a token, the reader hands out the characters not yet taken.
proof fn lemma_token_run_kinds(state: State, buf: Seq<char>, span: Option<crate::source::Span>, name: String, rs: ReaderState)
    requires
        0 <= rs.cursor <= rs.input.len(),
    ensures
        kind_of(token_run(state, buf, span, name, rs).0) == kind_run(
            state,
            buf,
            name,
            stream_of(rs).0,
            stream_of(rs).1,
        ).0,
        token_run(state, buf, span, name, rs).0 is Ok ==> stream_of(token_run(state, buf, span, name, rs).1)
            == (stream_of(rs).0.skip(kind_run(state, buf, name, stream_of(rs).0, stream_of(rs).1).1 as int), stream_of(rs).1),
    decreases rs.input.len() - rs.cursor,
{
    let (rc, rs2) = reader_step(rs);
    let cs = stream_of(rs).0;
    match rc {
        Err(e) => {
            assert(cs.skip(0) =~= cs);
            assert(rs2.done);
            assert(reader_step(rs2).0 is Err);
        },
        Ok(c) => {
            reader::lemma_step_consumes(rs);
            assert(rs2.cursor <= rs2.input.len());
            assert(cs[0] == c.c);
            assert(cs.drop_first() == stream_of(rs2).0);
            lemma_transition_shape(state, buf, span, None, name, name, c, plain_char(c.c));
            match transition(state, buf, span, name, c) {
                Transition::Continue(s2, b2, sp2) => {
                    lemma_token_run_kinds(s2, b2, sp2, name, rs2);
                    lemma_kind_run_takes(s2, b2, name, stream_of(rs2).0, stream_of(rs2).1);
                    let n = kind_run(s2, b2, name, stream_of(rs2).0, stream_of(rs2).1).1;
                    assert(cs.skip((n + 1) as int) =~= stream_of(rs2).0.skip(n as int));
                },
                _ => {
                    assert(cs.skip(1) =~= stream_of(rs2).0);
                },
            }
        },
    }
}

/// A token run takes no more characters than there are; from outside a word
/// or a symbol, a token takes at least one.
proof fn lemma_kind_run_takes(state: State, buf: Seq<char>, name: String, cs: Seq<char>, end: reader::Error)
    ensures
        kind_run(state, buf, name, cs, end).1 <= cs.len(),
        kind_run(state, buf, name, cs, end).0 is Ok && !(state is Word) && !(state is Symbol) ==> kind_run(
            state,
            buf,
            name,
            cs,
            end,
        ).1 > 0,
        cs.len() > 0 ==> kind_run(state, buf, name, cs, end).1 > 0,
        kind_run(state, buf, name, cs, end).1 == 0 && kind_run(state, buf, name, cs, end).0 is Ok
            ==> end is EndOfStream,
    decreases cs.len(),
{
    if cs.len() > 0 {
        match transition(state, buf, None, name, plain_char(cs[0])) {
            Transition::Continue(s2, b2, _) => {
                lemma_kind_run_takes(s2, b2, name, cs.drop_first(), end);
            },
            _ => {},
        }
    }
}

/// The kinds of the tokens read from a reader are those that the characters
/// it hands out give.
proof fn lemma_token_kinds_of_stream(name: String, rs: ReaderState)
    requires
        0 <= rs.cursor <= rs.input.len(),
    ensures
        token_kinds(name, rs) == kinds_from(State::Initial, Seq::empty(), name, stream_of(rs).0, stream_of(rs).1),
    decreases rs.input.len() - rs.cursor,
{
    let t = next_token_spec(name, rs);
    let (cs, end) = stream_of(rs);
    lemma_token_run_kinds(State::Initial, Seq::empty(), None, name, rs);
    lemma_kind_run_takes(State::Initial, Seq::empty(), name, cs, end);
    crate::parser::lemma_token_run_moves(State::Initial, Seq::empty(), None, name, rs);
    if t.0 is Ok {
        lemma_token_kinds_of_stream(name, t.1);
    }
}

/// A step that continues leaves the kinds to the characters after it.
proof fn lemma_kinds_continue(state: State, buf: Seq<char>, name: String, cs: Seq<char>, end: reader::Error)
    requires
        cs.len() > 0,
        transition(state, buf, None, name, plain_char(cs[0])) is Continue,
    ensures
        ({
            let t = transition(state, buf, None, name, plain_char(cs[0]));
            kinds_from(state, buf, name, cs, end) == kinds_from(t->Continue_0, t->Continue_1, name, cs.drop_first(), end)
        }),
{
    let t = transition(state, buf, None, name, plain_char(cs[0]));
    let r = kind_run(t->Continue_0, t->Continue_1, name, cs.drop_first(), end);
    lemma_kind_run_takes(t->Continue_0, t->Continue_1, name, cs.drop_first(), end);
    assert(kind_run(state, buf, name, cs, end) == (r.0, (r.1 + 1) as nat));
    if r.0 is Ok && r.1 > 0 {
        assert(cs.skip((r.1 + 1) as int) =~= cs.drop_first().skip(r.1 as int));
    }
    if r.0 is Ok && r.1 == 0 {
        assert(cs.skip(1) =~= Seq::<char>::empty());
        assert(kind_run(State::Initial, Seq::empty(), name, cs.skip(1), end).0 == Err::<TokenKindView, Error>(
            Error::Reader(reader::Error::EndOfStream),
        ));
        assert(kinds_from(State::Initial, Seq::empty(), name, cs.skip(1), end) == (
            Seq::<TokenKindView>::empty(),
            Error::Reader(reader::Error::EndOfStream),
        ));
        assert(seq![r.0->Ok_0] + Seq::<TokenKindView>::empty() =~= seq![r.0->Ok_0]);
    }
}

/// A run of whitespace in a stream of characters leaves the kinds of its
/// tokens as they are when it is squeezed to one space.
proof fn lemma_kinds_squeeze(state: State, buf: Seq<char>, name: String, cs: Seq<char>, end: reader::Error)
    requires
        state is Initial || state is Word || state is Symbol,
        plain_text(cs),
    ensures
        kinds_from(state, buf, name, cs, end) == kinds_from(state, buf, name, squeeze(cs), end),
        plain_text(squeeze(cs)),
        cs.len() > 0 && is_white_space(cs[0]) ==> squeeze(cs).len() > 0 && squeeze(cs)[0] == ' ',
        cs.len() > 0 && !is_white_space(cs[0]) ==> squeeze(cs) == seq![cs[0]] + squeeze(cs.drop_first()),
    decreases cs.len(),
{
    assert(is_white_space(' ')) by {
        assert((' ' as u32) == 32);
    }
    assert((' ' != '#') && (' ' != '"')) by {
        assert((' ' as u32) == 32 && ('#' as u32) == 35 && ('"' as u32) == 34);
    }
    if cs.len() > 0 {
        let c = cs[0];
        let rest = cs.drop_first();
        assert(plain_text(rest)) by {
            assert forall|i: int| 0 <= i < rest.len() implies #[trigger] rest[i] != '#' && rest[i] != '"' by {
                assert(rest[i] == cs[i + 1]);
            }
        }
        assert(c != '#' && c != '"') by {
            assert(cs[0] != '#' && cs[0] != '"');
        }
        lemma_kinds_squeeze(State::Initial, Seq::empty(), name, rest, end);
        if !is_white_space(c) {
            let sq = squeeze(cs);
            assert(sq == seq![c] + squeeze(rest));
            assert(sq[0] == c);
            assert(sq.drop_first() =~= squeeze(rest));
            assert(plain_text(sq)) by {
                assert forall|i: int| 0 <= i < sq.len() implies #[trigger] sq[i] != '#' && sq[i] != '"' by {
                    if i > 0 {
                        assert(sq[i] == squeeze(rest)[i - 1]);
                    }
                }
            }
            let t = transition(state, buf, None, name, plain_char(c));
            lemma_kinds_continue(state, buf, name, cs, end);
            lemma_kinds_continue(state, buf, name, sq, end);
            lemma_kinds_squeeze(t->Continue_0, t->Continue_1, name, rest, end);
        } else {
            let collapse = cs.len() > 1 && is_white_space(cs[1]);
            let sq = squeeze(cs);
            if collapse {
                assert(sq == squeeze(rest));
                assert(rest[0] == cs[1]);
            } else {
                assert(sq == seq![' '] + squeeze(rest));
                assert(sq.drop_first() =~= squeeze(rest));
                assert(plain_text(sq)) by {
                    assert forall|i: int| 0 <= i < sq.len() implies #[trigger] sq[i] != '#' && sq[i] != '"' by {
                        if i > 0 {
                            assert(sq[i] == squeeze(rest)[i - 1]);
                        }
                    }
                }
            }
            assert(sq.len() > 0 && sq[0] == ' ');
            if state is Initial {
                lemma_kinds_continue(state, buf, name, cs, end);
                lemma_kinds_squeeze(State::Initial, buf, name, rest, end);
                if !collapse {
                    lemma_kinds_continue(state, buf, name, sq, end);
                }
            } else {
                // A word or a symbol ends at the first whitespace, whichever it is.
                assert(cs.skip(1) =~= rest);
                assert(sq.skip(1) =~= sq.drop_first());
                if collapse {
                    // `rest` starts with whitespace too, squeezed to the same space.
                    lemma_kinds_squeeze(State::Initial, Seq::empty(), name, rest, end);
                    assert(squeeze(rest).len() > 0 && squeeze(rest)[0] == ' ');
                    let sr = squeeze(rest);
                    assert(sr.drop_first() =~= sq.drop_first());
                    lemma_kinds_continue(State::Initial, Seq::empty(), name, sr, end);
                    assert(plain_text(sr.drop_first())) by {
                        assert forall|i: int| 0 <= i < sr.drop_first().len() implies #[trigger] sr.drop_first()[i]
                            != '#' && sr.drop_first()[i] != '"' by {
                            assert(sr.drop_first()[i] == sr[i + 1]);
                        }
                    }
                }
            }
        }
    }
}

/// Streams whose characters differ only in the runs of whitespace between
/// them, each replaced by another non-empty run, give the same kinds of
/// tokens, one after the other, and end in the same error, where neither
/// holds a comment or a string and both end in the same reader error.
pub proof fn law_whitespace_runs_do_not_change_tokens(name: String, rs1: ReaderState, rs2: ReaderState)
    requires
        0 <= rs1.cursor <= rs1.input.len(),
        0 <= rs2.cursor <= rs2.input.len(),
        plain_text(stream_of(rs1).0),
        plain_text(stream_of(rs2).0),
        squeeze(stream_of(rs1).0) == squeeze(stream_of(rs2).0),
        stream_of(rs1).1 == stream_of(rs2).1,
    ensures
        token_kinds(name, rs1) == token_kinds(name, rs2),
{
    lemma_token_kinds_of_stream(name, rs1);
    lemma_token_kinds_of_stream(name, rs2);
    lemma_kinds_squeeze(State::Initial, Seq::empty(), name, stream_of(rs1).0, stream_of(rs1).1);
    lemma_kinds_squeeze(State::Initial, Seq::empty(), name, stream_of(rs2).0, stream_of(rs2).1);
}

/// Inside a string, the characters `s` (none a backslash or a quote) are
/// kept, and the quote after them ends the string.
proof fn lemma_string_run(buf: Seq<char>, name: String, s: Seq<char>, rest: Seq<char>, end: reader::Error)
    requires
        forall|i: int| 0 <= i < s.len() ==> #[trigger] s[i] != '\\' && s[i] != '"',
    ensures
        kind_run(State::String, buf, name, s + seq!['"'] + rest, end) == (
            Ok::<TokenKindView, Error>(TokenKindView::String(buf + s)),
            (s.len() + 1) as nat,
        ),
    decreases s.len(),
{
    let cs = s + seq!['"'] + rest;
    if s.len() == 0 {
        assert(cs[0] == '"');
        assert(buf + s =~= buf);
    } else {
        assert(cs[0] == s[0]);
        assert(s[0] != '\\' && s[0] != '"');
        let s2 = s.drop_first();
        assert(cs.drop_first() =~= s2 + seq!['"'] + rest);
        assert forall|i: int| 0 <= i < s2.len() implies #[trigger] s2[i] != '\\' && s2[i] != '"' by {
            assert(s2[i] == s[i + 1]);
        }
        lemma_string_run(buf.push(s[0]), name, s2, rest, end);
        assert(buf.push(s[0]) + s2 =~= buf + s);
    }
}

/// A string literal reads as exactly the characters between its quotes,
/// whitespace included, where none of them is a backslash or a quote:
/// `"` + `s` + `"` gives the string `s`, whatever follows.
pub proof fn law_string_literal_reads_back(name: String, s: Seq<char>, rest: Seq<char>, end: reader::Error)
    requires
        forall|i: int| 0 <= i < s.len() ==> #[trigger] s[i] != '\\' && s[i] != '"',
    ensures
        kind_run(State::Initial, Seq::empty(), name, seq!['"'] + s + seq!['"'] + rest, end) == (
            Ok::<TokenKindView, Error>(TokenKindView::String(s)),
            (s.len() + 2) as nat,
        ),
{
    let cs = seq!['"'] + s + seq!['"'] + rest;
    assert(cs[0] == '"');
    assert(cs.drop_first() =~= s + seq!['"'] + rest);
    lemma_string_run(Seq::empty(), name, s, rest, end);
    assert(Seq::<char>::empty() + s =~= s);
}

} // verus!
