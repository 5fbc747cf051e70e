//! Building expressions from tokens: lists are delimited by `[` and `]`.

use vstd::prelude::*;

use crate::{
    reader::{self, ReaderState},
    source::{opt_span_merge, Span},
    text::{push_decimal, str_to_string, string_push, string_push_str},
    tokenizer::{
        self, next_token_spec, token_refines, FloatSyntax, Token, TokenKind, TokenKindView,
        TokenView, Tokenizer,
    },
    value::{clone_span, FloatValue},
};

verus! {

/// An expression of the language.
#[derive(Debug)]
pub struct Expression {
    pub kind: ExpressionKind,
    pub span: Option<Span>,
}

/// What an expression is.
#[derive(Debug)]
pub enum ExpressionKind {
    Bool(bool),
    Float(FloatValue),
    Number(u32),
    List(Vec<Expression>),
    String(String),
    Symbol(String),
    Word(String),
}

/// An expression as the grammar describes it, with texts as character
/// sequences.
pub struct ExprView {
    pub kind: ExprKindView,
    pub span: Option<Span>,
}

/// What an expression is, as the grammar describes it.
pub enum ExprKindView {
    Bool(bool),
    Float(FloatValue),
    Number(u32),
    List(Seq<ExprView>),
    String(Seq<char>),
    Symbol(Seq<char>),
    Word(Seq<char>),
}

/// Whether an expression's kind is `kv`, where a float may stand for a word
/// that the float syntax took for a float.
pub open spec fn kind_matches(k: ExpressionKind, kv: ExprKindView) -> bool
    decreases k,
{
    match (k, kv) {
        (ExpressionKind::Bool(a), ExprKindView::Bool(b)) => a == b,
        (ExpressionKind::Float(a), ExprKindView::Float(b)) => a == b,
        (ExpressionKind::Float(_), ExprKindView::Word(_)) => true,
        (ExpressionKind::Number(a), ExprKindView::Number(b)) => a == b,
        (ExpressionKind::String(a), ExprKindView::String(b)) => a@ == b,
        (ExpressionKind::Symbol(a), ExprKindView::Symbol(b)) => a@ == b,
        (ExpressionKind::Word(a), ExprKindView::Word(b)) => a@ == b,
        (ExpressionKind::List(items), ExprKindView::List(vs)) => items@.len() == vs.len()
            && items_match(k, items@, vs, 0),
        _ => false,
    }
}

/// Whether the items of a list match `vs` from index `i` on; `whole` is the
/// list's kind, which the recursion measures against.
pub open spec fn items_match(
    whole: ExpressionKind,
    xs: Seq<Expression>,
    vs: Seq<ExprView>,
    i: int,
) -> bool
    decreases whole, xs.len() - i,
    when whole matches ExpressionKind::List(v) && v@ == xs && 0 <= i
{
    if i >= xs.len() || i >= vs.len() {
        true
    } else {
        &&& xs[i].span == vs[i].span
        &&& kind_matches(xs[i].kind, vs[i].kind)
        &&& items_match(whole, xs, vs, i + 1)
    }
}

/// Whether an expression is `v`, up to floats.
pub open spec fn expr_matches(e: Expression, v: ExprView) -> bool {
    e.span == v.span && kind_matches(e.kind, v.kind)
}

/// Why no expression could be parsed.
#[derive(Debug)]
pub enum Error {
    Tokenizer(tokenizer::Error),
    UnexpectedToken(Token),
    EndOfStream,
}

impl Error {
    /// The places in the source that the error refers to: that of an
    /// unexpected token.
    pub fn spans(&self) -> (r: Vec<Span>)
        ensures
            match self {
                Error::UnexpectedToken(t) => match t.span {
                    Some(s) => r@ == seq![s],
                    None => r@.len() == 0,
                },
                _ => r@.len() == 0,
            },
    {
        let mut v: Vec<Span> = Vec::new();
        match self {
            Error::UnexpectedToken(t) => match &t.span {
                Some(s) => v.push(s.clone()),
                None => {},
            },
            _ => {},
        }
        v
    }
}

/// A parse error, with the unexpected token as the grammar describes it.
pub enum ErrorView {
    Tokenizer(tokenizer::Error),
    UnexpectedToken(TokenView),
    EndOfStream,
}

/// The parse error for a tokenizer error: the end of the stream is reported
/// as such.
pub open spec fn from_tokenizer_error(e: tokenizer::Error) -> ErrorView {
    match e {
        tokenizer::Error::Reader(reader::Error::EndOfStream) => ErrorView::EndOfStream,
        _ => ErrorView::Tokenizer(e),
    }
}

/// Whether an error is `ev`.
pub open spec fn error_matches(e: Error, ev: ErrorView) -> bool {
    match (e, ev) {
        (Error::Tokenizer(a), ErrorView::Tokenizer(b)) => a == b,
        (Error::UnexpectedToken(t), ErrorView::UnexpectedToken(tv)) => t@ == tv,
        (Error::EndOfStream, ErrorView::EndOfStream) => true,
        _ => false,
    }
}

/// The expression of a token that is not a list delimiter.
pub open spec fn from_token_view(tv: TokenView) -> ExprView {
    ExprView {
        kind: match tv.kind {
            TokenKindView::Bool(b) => ExprKindView::Bool(b),
            TokenKindView::Float(f) => ExprKindView::Float(f),
            TokenKindView::Number(n) => ExprKindView::Number(n),
            TokenKindView::String(s) => ExprKindView::String(s),
            TokenKindView::Symbol(s) => ExprKindView::Symbol(s),
            TokenKindView::Word(s) => ExprKindView::Word(s),
            _ => ExprKindView::Word(Seq::empty()),
        },
        span: tv.span,
    }
}

/// Whether a read moved forward within the stream.
pub open spec fn advanced(before: ReaderState, after: ReaderState) -> bool {
    before.cursor < after.cursor && after.cursor <= after.input.len() && after.input
        == before.input
}

/// Whether a state is no earlier within the same stream.
pub open spec fn not_behind(before: ReaderState, after: ReaderState) -> bool {
    before.cursor <= after.cursor && after.cursor <= after.input.len() && after.input
        == before.input
}

/// Parsing the rest of a list whose items so far are `items` and whose span
/// so far is `span`: the list or error, the reader's state after, and the
/// characters read.
pub open spec fn parse_list_spec(
    name: String,
    rs: ReaderState,
    span: Option<Span>,
    items: Seq<ExprView>,
) -> (Result<ExprView, ErrorView>, ReaderState, Seq<char>)
    decreases rs.input.len() - rs.cursor,
{
    let t = next_token_spec(name, rs);
    match t.0 {
        Err(e) => (Err(from_tokenizer_error(e)), t.1, t.2),
        Ok(tv) => if !advanced(rs, t.1) {
            (Err(ErrorView::EndOfStream), t.1, t.2)
        } else {
            let span2 = opt_span_merge(span, tv.span);
            match tv.kind {
                TokenKindView::ListClose => (
                    Ok(ExprView { kind: ExprKindView::List(items), span: span2 }),
                    t.1,
                    t.2,
                ),
                TokenKindView::ListOpen => {
                    let inner = parse_list_spec(name, t.1, tv.span, Seq::empty());
                    match inner.0 {
                        Err(e) => (Err(e), inner.1, t.2 + inner.2),
                        Ok(iv) => if !not_behind(t.1, inner.1) {
                            (Err(ErrorView::EndOfStream), inner.1, t.2 + inner.2)
                        } else {
                            let rest = parse_list_spec(name, inner.1, span2, items.push(iv));
                            (rest.0, rest.1, t.2 + inner.2 + rest.2)
                        },
                    }
                },
                _ => {
                    let rest = parse_list_spec(
                        name,
                        t.1,
                        span2,
                        items.push(from_token_view(tv)),
                    );
                    (rest.0, rest.1, t.2 + rest.2)
                },
            }
        },
    }
}

/// Parsing the next expression: a list, or the expression of one token. A
/// `]` out of a list is unexpected.
pub open spec fn parse_expression_spec(name: String, rs: ReaderState) -> (
    Result<ExprView, ErrorView>,
    ReaderState,
    Seq<char>,
) {
    let t = next_token_spec(name, rs);
    match t.0 {
        Err(e) => (Err(from_tokenizer_error(e)), t.1, t.2),
        Ok(tv) => match tv.kind {
            TokenKindView::ListOpen => if !advanced(rs, t.1) {
                (Err(ErrorView::EndOfStream), t.1, t.2)
            } else {
                let inner = parse_list_spec(name, t.1, tv.span, Seq::empty());
                (inner.0, inner.1, t.2 + inner.2)
            },
            TokenKindView::ListClose => (Err(ErrorView::UnexpectedToken(tv)), t.1, t.2),
            _ => (Ok(from_token_view(tv)), t.1, t.2),
        },
    }
}

/// Tokenizing moves forward, and by at least one byte where a token is read
/// from outside a word or symbol.
pub proof fn lemma_token_run_moves(
    state: tokenizer::State,
    buf: Seq<char>,
    span: Option<Span>,
    name: String,
    rs: ReaderState,
)
    requires
        0 <= rs.cursor <= rs.input.len(),
    ensures
        not_behind(rs, tokenizer::token_run(state, buf, span, name, rs).1),
        tokenizer::token_run(state, buf, span, name, rs).0 is Ok && !(state is Word) && !(
        state is Symbol) ==> advanced(rs, tokenizer::token_run(state, buf, span, name, rs).1),
    decreases rs.input.len() - rs.cursor,
{
    let (rc, rs2) = reader::reader_step(rs);
    match rc {
        Err(e) => {},
        Ok(c) => {
            reader::lemma_step_consumes(rs);
            if rs2.cursor <= rs.cursor || rs2.cursor > rs2.input.len() || rs2.input != rs.input {
            } else {
                match tokenizer::transition(state, buf, span, name, c) {
                    tokenizer::Transition::Continue(s2, b2, sp2) => {
                        lemma_token_run_moves(s2, b2, sp2, name, rs2);
                    },
                    _ => {},
                }
            }
        },
    }
}

/// Parsing a list moves forward.
pub proof fn lemma_parse_list_moves(name: String, rs: ReaderState, span: Option<Span>, items: Seq<ExprView>)
    requires
        0 <= rs.cursor <= rs.input.len(),
    ensures
        not_behind(rs, parse_list_spec(name, rs, span, items).1),
    decreases rs.input.len() - rs.cursor,
{
    let t = next_token_spec(name, rs);
    lemma_token_run_moves(tokenizer::State::Initial, Seq::empty(), None, name, rs);
    match t.0 {
        Err(e) => {},
        Ok(tv) => if advanced(rs, t.1) {
            let span2 = opt_span_merge(span, tv.span);
            match tv.kind {
                TokenKindView::ListClose => {},
                TokenKindView::ListOpen => {
                    lemma_parse_list_moves(name, t.1, tv.span, Seq::empty());
                    let inner = parse_list_spec(name, t.1, tv.span, Seq::empty());
                    match inner.0 {
                        Err(e) => {},
                        Ok(iv) => if not_behind(t.1, inner.1) {
                            lemma_parse_list_moves(name, inner.1, span2, items.push(iv));
                        },
                    }
                },
                _ => {
                    lemma_parse_list_moves(name, t.1, span2, items.push(from_token_view(tv)));
                },
            }
        },
    }
}

/// Parsing a whole stream: the expressions up to its end, after `acc`, or the
/// first error other than the end of the stream; and the reader's state after.
pub open spec fn parse_all_spec(name: String, rs: ReaderState, acc: Seq<ExprView>) -> (
    Result<Seq<ExprView>, ErrorView>,
    ReaderState,
)
    decreases rs.input.len() - rs.cursor,
{
    let p = parse_expression_spec(name, rs);
    match p.0 {
        Ok(e) => if advanced(rs, p.1) {
            parse_all_spec(name, p.1, acc.push(e))
        } else {
            (Err(ErrorView::EndOfStream), p.1)
        },
        Err(ErrorView::EndOfStream) => (Ok(acc), p.1),
        Err(e) => (Err(e), p.1),
    }
}

/// The expressions read so far begin every complete reading of the stream.
pub proof fn law_parsed_expressions_are_kept(name: String, rs: ReaderState, acc: Seq<ExprView>)
    ensures
        parse_all_spec(name, rs, acc).0 matches Ok(all) ==> acc.is_prefix_of(all),
    decreases rs.input.len() - rs.cursor,
{
    let p = parse_expression_spec(name, rs);
    match p.0 {
        Ok(e) => if advanced(rs, p.1) {
            law_parsed_expressions_are_kept(name, p.1, acc.push(e));
            if parse_all_spec(name, rs, acc).0 is Ok {
                let all = parse_all_spec(name, rs, acc).0->Ok_0;
                assert forall|i: int| 0 <= i < acc.len() implies acc[i] == all[i] by {
                    assert(acc.push(e)[i] == acc[i]);
                }
            }
        },
        _ => {},
    }
}

/// Parsing moves forward, and by at least one byte where an expression is
/// read.
pub proof fn lemma_parse_expression_moves(name: String, rs: ReaderState)
    requires
        0 <= rs.cursor <= rs.input.len(),
    ensures
        not_behind(rs, parse_expression_spec(name, rs).1),
        parse_expression_spec(name, rs).0 is Ok ==> advanced(rs, parse_expression_spec(name, rs).1),
{
    lemma_token_run_moves(tokenizer::State::Initial, Seq::empty(), None, name, rs);
    let t = next_token_spec(name, rs);
    match t.0 {
        Err(e) => {},
        Ok(tv) => match tv.kind {
            TokenKindView::ListOpen => if advanced(rs, t.1) {
                lemma_parse_list_moves(name, t.1, tv.span, Seq::empty());
            },
            _ => {},
        },
    }
}

/// The item at `j` of a list of expressions.
pub open spec fn expr_at(xs: Seq<Expression>, j: int) -> Expression {
    xs[j]
}

/// Merges two optional spans.
fn merge_spans(a: Option<Span>, b: Option<Span>) -> (r: Option<Span>)
    ensures
        r == opt_span_merge(a, b),
{
    match a {
        None => b,
        Some(a) => match b {
            None => Some(a),
            Some(b) => Some(a.merge(&b)),
        },
    }
}

/// Items that each match make a list whose items match.
proof fn lemma_items_match(whole: ExpressionKind, xs: Seq<Expression>, vs: Seq<ExprView>, i: int)
    requires
        whole matches ExpressionKind::List(v) && v@ == xs,
        xs.len() == vs.len(),
        0 <= i <= xs.len(),
        forall|j: int| i <= j < xs.len() ==> #[trigger] expr_matches(xs[j], vs[j]),
    ensures
        items_match(whole, xs, vs, i),
    decreases xs.len() - i,
{
    if i < xs.len() {
        assert(expr_matches(xs[i], vs[i]));
        lemma_items_match(whole, xs, vs, i + 1);
    }
}

impl Expression {
    /// The expression of a token that is not a list delimiter.
    pub fn from_token(token: Token) -> (r: Expression)
        requires
            !(token.kind is ListOpen),
            !(token.kind is ListClose),
        ensures
            expr_matches(r, from_token_view(token@)),
    {
        let kind = match token.kind {
            TokenKind::Bool(b) => ExpressionKind::Bool(b),
            TokenKind::Float(f) => ExpressionKind::Float(f),
            TokenKind::Number(n) => ExpressionKind::Number(n),
            TokenKind::String(s) => ExpressionKind::String(s),
            TokenKind::Symbol(s) => ExpressionKind::Symbol(s),
            TokenKind::Word(s) => ExpressionKind::Word(s),
            TokenKind::ListOpen => ExpressionKind::Word(String::new()),
            TokenKind::ListClose => ExpressionKind::Word(String::new()),
        };
        Expression { kind, span: token.span }
    }
}

/// Builds expressions from the tokens of a tokenizer.
pub struct Parser {
    tokenizer: Tokenizer,
}

impl Parser {
    /// The state of the reader below.
    pub closed spec fn reader_state(&self) -> ReaderState {
        self.tokenizer.reader_state()
    }

    /// The name of the stream being parsed.
    pub closed spec fn stream_name(&self) -> String {
        self.tokenizer.stream_name()
    }

    /// The position of the next character.
    pub fn position(&self) -> (r: crate::source::Position)
        ensures
            r == self.reader_state().next_pos,
            0 <= self.reader_state().cursor <= self.reader_state().input.len(),
    {
        self.tokenizer.position()
    }

    /// A parser of the tokens of `tokenizer`.
    pub fn new(tokenizer: Tokenizer) -> (r: Parser)
        ensures
            r.reader_state() == tokenizer.reader_state(),
            r.stream_name() == tokenizer.stream_name(),
    {
        Parser { tokenizer }
    }

    /// Reads tokens up to the end of the next expression, appending every
    /// character read to `source`.
    pub fn next_expression<F: FloatSyntax>(&mut self, floats: &F, source: &mut String) -> (r: Result<
        Expression,
        Error,
    >)
        ensures
            ({
                let run = parse_expression_spec(old(self).stream_name(), old(self).reader_state());
                &&& final(self).stream_name() == old(self).stream_name()
                &&& final(self).reader_state() == run.1
                &&& final(source)@ == old(source)@ + run.2
                &&& (r is Ok <==> run.0 is Ok)
                &&& (r matches Ok(e) ==> expr_matches(e, run.0->Ok_0))
                &&& (r matches Err(e) ==> error_matches(e, run.0->Err_0))
            }),
    {
        let ghost rs = self.tokenizer.reader_state();
        let ghost name = self.tokenizer.stream_name();
        let ghost src0 = source@;
        self.tokenizer.position();
        let token = match self.tokenizer.next_token(floats, source) {
            Ok(t) => t,
            Err(e) => {
                return Err(Parser::convert(e));
            },
        };
        proof {
            lemma_token_run_moves(tokenizer::State::Initial, Seq::empty(), None, name, rs);
        }
        match token.kind {
            TokenKind::ListOpen => {
                let ghost src1 = source@;
                let r = self.parse_list(floats, token.span, source);
                proof {
                    assert(source@ =~= src0 + (next_token_spec(name, rs).2 + (source@.skip(src1.len() as int))));
                }
                r
            },
            TokenKind::ListClose => Err(Error::UnexpectedToken(token)),
            _ => Ok(Expression::from_token(token)),
        }
    }

    /// The parse error of a tokenizer error.
    fn convert(e: tokenizer::Error) -> (r: Error)
        ensures
            error_matches(r, from_tokenizer_error(e)),
    {
        match e {
            tokenizer::Error::Reader(reader::Error::EndOfStream) => Error::EndOfStream,
            _ => Error::Tokenizer(e),
        }
    }

    /// Reads the rest of a list that began with a `[` of span `list_span`.
    fn parse_list<F: FloatSyntax>(&mut self, floats: &F, open_span: Option<Span>, source: &mut String) -> (r: Result<
        Expression,
        Error,
    >)
        ensures
            ({
                let run = parse_list_spec(
                    old(self).stream_name(),
                    old(self).reader_state(),
                    open_span,
                    Seq::empty(),
                );
                &&& final(self).stream_name() == old(self).stream_name()
                &&& final(self).reader_state() == run.1
                &&& final(source)@ == old(source)@ + run.2
                &&& (r is Ok <==> run.0 is Ok)
                &&& (r matches Ok(e) ==> expr_matches(e, run.0->Ok_0))
                &&& (r matches Err(e) ==> error_matches(e, run.0->Err_0))
            }),
        decreases old(self).reader_state().input.len() - old(self).reader_state().cursor,
    {
        let ghost name = self.tokenizer.stream_name();
        let ghost goal = parse_list_spec(name, self.tokenizer.reader_state(), open_span, Seq::empty());
        let ghost src0 = source@;
        let ghost rs0 = self.tokenizer.reader_state();
        let mut list_span = open_span;
        let mut expressions: Vec<Expression> = Vec::new();
        let ghost mut views: Seq<ExprView> = Seq::empty();
        self.tokenizer.position();
        loop
            invariant
                self.tokenizer.stream_name() == name,
                name == old(self).stream_name(),
                src0 == old(source)@,
                goal == parse_list_spec(name, old(self).reader_state(), open_span, Seq::empty()),
                rs0 == old(self).reader_state(),
                not_behind(rs0, self.tokenizer.reader_state()),
                0 <= rs0.cursor,
                expressions@.len() == views.len(),
                forall|j: int| 0 <= j < views.len() ==> #[trigger] expr_matches(expressions@[j], views[j]),
                ({
                    let cur = parse_list_spec(name, self.tokenizer.reader_state(), list_span, views);
                    &&& goal.0 == cur.0
                    &&& goal.1 == cur.1
                    &&& src0 + goal.2 == source@ + cur.2
                }),
            decreases self.tokenizer.reader_state().input.len() - self.tokenizer.reader_state().cursor,
        {
            let ghost rs = self.tokenizer.reader_state();
            let ghost src1 = source@;
            let token = match self.tokenizer.next_token(floats, source) {
                Ok(t) => t,
                Err(e) => {
                    proof {
                        assert(source@ =~= src0 + goal.2);
                    }
                    return Err(Parser::convert(e));
                },
            };
            proof {
                lemma_token_run_moves(tokenizer::State::Initial, Seq::empty(), None, name, rs);
            }
            let ghost tv = next_token_spec(name, rs).0->Ok_0;
            let ghost rs1 = self.tokenizer.reader_state();
            let token_span = clone_span(&token.span);
            list_span = merge_spans(list_span, token_span);
            match token.kind {
                TokenKind::ListClose => {
                    let e = Expression { kind: ExpressionKind::List(expressions), span: list_span };
                    proof {
                        assert(source@ =~= src0 + goal.2);
                        let k = e.kind;
                        lemma_items_match(k, expressions@, views, 0);
                    }
                    return Ok(e);
                },
                TokenKind::ListOpen => {
                    let ghost src2 = source@;
                    let inner = self.parse_list(floats, token.span, source);
                    proof {
                        lemma_parse_list_moves(name, rs1, tv.span, Seq::empty());
                    }
                    match inner {
                        Ok(e) => {
                            proof {
                                views = views.push(parse_list_spec(name, rs1, tv.span, Seq::empty()).0->Ok_0);
                            }
                            expressions.push(e);
                            proof {
                                assert forall|j: int| 0 <= j < views.len() implies #[trigger] expr_matches(expressions@[j], views[j]) by {
                                    if j < views.len() - 1 {
                                        assert(expressions@[j] == expr_at(expressions@, j));
                                    }
                                }
                                assert(src2 == src1 + next_token_spec(name, rs).2);
                            }
                        },
                        Err(e) => {
                            proof {
                                assert(source@ =~= src0 + goal.2);
                            }
                            return Err(e);
                        },
                    }
                },
                _ => {
                    let e = Expression::from_token(token);
                    proof {
                        views = views.push(from_token_view(tv));
                    }
                    expressions.push(e);
                },
            }
        }
    }
}

/// Whether the tokens read one after the other from `rss[0]` are the plain
/// tokens `tvs` (no list delimiters) and then `]`, each read moving forward
/// to the next state of `rss`.
pub open spec fn plain_tokens_then_close(name: String, rss: Seq<ReaderState>, tvs: Seq<TokenView>) -> bool {
    &&& rss.len() == tvs.len() + 2
    &&& forall|k: int|
        0 <= k < tvs.len() ==> #[trigger] next_token_spec(name, rss[k]).0 == Ok::<TokenView, tokenizer::Error>(tvs[k])
            && next_token_spec(name, rss[k]).1 == rss[k + 1] && advanced(rss[k], rss[k + 1])
            && !(tvs[k].kind is ListOpen) && !(tvs[k].kind is ListClose)
    &&& next_token_spec(name, rss[tvs.len() as int]).0 matches Ok(c) && c.kind is ListClose
    &&& next_token_spec(name, rss[tvs.len() as int]).1 == rss[tvs.len() as int + 1]
    &&& advanced(rss[tvs.len() as int], rss[tvs.len() as int + 1])
}

/// A `]` ends a list with the items read so far, even none: the rest of a
/// list made of plain tokens and then `]` is the list of the items before,
/// followed by the expressions of those tokens, in order.
pub proof fn law_list_of_plain_tokens(
    name: String,
    rss: Seq<ReaderState>,
    tvs: Seq<TokenView>,
    span: Option<Span>,
    items: Seq<ExprView>,
)
    requires
        plain_tokens_then_close(name, rss, tvs),
    ensures
        parse_list_spec(name, rss[0], span, items).0 matches Ok(e) && e.kind == ExprKindView::List(
            items + tvs.map_values(|tv: TokenView| from_token_view(tv)),
        ),
    decreases tvs.len(),
{
    let f = |tv: TokenView| from_token_view(tv);
    if tvs.len() == 0 {
        assert(items + tvs.map_values(f) =~= items);
    } else {
        let t = next_token_spec(name, rss[0]);
        assert(t.0 == Ok::<TokenView, tokenizer::Error>(tvs[0]));
        let rss2 = rss.drop_first();
        let tvs2 = tvs.drop_first();
        assert(plain_tokens_then_close(name, rss2, tvs2)) by {
            assert forall|k: int| 0 <= k < tvs2.len() implies #[trigger] next_token_spec(name, rss2[k]).0
                == Ok::<TokenView, tokenizer::Error>(tvs2[k]) && next_token_spec(name, rss2[k]).1 == rss2[k + 1]
                && advanced(rss2[k], rss2[k + 1]) && !(tvs2[k].kind is ListOpen) && !(tvs2[k].kind is ListClose) by {
                assert(rss2[k] == rss[k + 1]);
                assert(next_token_spec(name, rss[k + 1]).0 == Ok::<TokenView, tokenizer::Error>(tvs[k + 1]));
            }
            assert(rss2[tvs2.len() as int] == rss[tvs.len() as int]);
        }
        let span2 = opt_span_merge(span, tvs[0].span);
        law_list_of_plain_tokens(name, rss2, tvs2, span2, items.push(from_token_view(tvs[0])));
        assert(items.push(from_token_view(tvs[0])) + tvs2.map_values(f) =~= items + tvs.map_values(f));
    }
}

/// `[`, then plain tokens, then `]` is a list expression of those tokens'
/// expressions, in order; `[ ]` is the empty list.
pub proof fn law_list_expression(name: String, rs: ReaderState, rss: Seq<ReaderState>, tvs: Seq<TokenView>)
    requires
        next_token_spec(name, rs).0 matches Ok(o) && o.kind is ListOpen,
        plain_tokens_then_close(name, rss, tvs),
        next_token_spec(name, rs).1 == rss[0],
        advanced(rs, rss[0]),
    ensures
        parse_expression_spec(name, rs).0 matches Ok(e) && e.kind == ExprKindView::List(
            tvs.map_values(|tv: TokenView| from_token_view(tv)),
        ),
{
    let o = next_token_spec(name, rs).0->Ok_0;
    law_list_of_plain_tokens(name, rss, tvs, o.span, Seq::empty());
    assert(Seq::<ExprView>::empty() + tvs.map_values(|tv: TokenView| from_token_view(tv)) =~= tvs.map_values(
        |tv: TokenView| from_token_view(tv),
    ));
}

} // verus!
