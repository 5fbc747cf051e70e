//! Error reports for the terminal: the message, the source lines that the
//! error refers to with markers under the spans, hints, and the functions that
//! were being evaluated. Colors come from termion's escape sequences.

use vstd::prelude::*;

use crate::{
    call_stack::StackFrame,
    context::Error as EvalError,
    functions::DefineError,
    interpreter::{Error, ErrorKind},
    parser,
    reader,
    source::Span,
    stack::{display_values, stack_error_message},
    text::{chars_of, decimal, push_decimal, string_push, string_push_str},
    tokenizer::{self, TokenKind, TokenKindView},
    types::Type,
    value::{type_error_message, FloatValue},
};

verus! {

/// What `termion::color::Fg(termion::color::Red)` writes.
pub open spec fn red() -> Seq<char> {
    seq!['\x1b', '[', '3', '8', ';', '5', ';', '1', 'm']
}

/// What `termion::color::Fg(termion::color::Magenta)` writes.
pub open spec fn magenta() -> Seq<char> {
    seq!['\x1b', '[', '3', '8', ';', '5', ';', '5', 'm']
}

/// What `termion::color::Fg(termion::color::Cyan)` writes.
pub open spec fn cyan() -> Seq<char> {
    seq!['\x1b', '[', '3', '8', ';', '5', ';', '6', 'm']
}

/// What `termion::color::Fg(termion::color::LightRed)` writes.
pub open spec fn light_red() -> Seq<char> {
    seq!['\x1b', '[', '3', '8', ';', '5', ';', '9', 'm']
}

/// What `termion::color::Fg(termion::color::LightBlue)` writes.
pub open spec fn light_blue() -> Seq<char> {
    seq!['\x1b', '[', '3', '8', ';', '5', ';', '1', '2', 'm']
}

/// What `termion::color::Fg(termion::color::LightWhite)` writes.
pub open spec fn light_white() -> Seq<char> {
    seq!['\x1b', '[', '3', '8', ';', '5', ';', '1', '5', 'm']
}

/// What `termion::color::Fg(termion::color::Reset)` writes.
pub open spec fn reset_fg() -> Seq<char> {
    seq!['\x1b', '[', '3', '9', 'm']
}

/// What `termion::style::Bold` writes.
pub open spec fn bold() -> Seq<char> {
    seq!['\x1b', '[', '1', 'm']
}

/// What `termion::style::Reset` writes.
pub open spec fn reset_style() -> Seq<char> {
    seq!['\x1b', '[', 'm']
}

/// What termion's `Fg(Red)` displays as: its source writes the sequence
/// `ESC [38;5;1m`.
#[verifier::external_body]
fn red_code() -> (r: String)
    ensures
        r@ == red(),
{
    format!("{}", termion::color::Fg(termion::color::Red))
}

/// Appends `Fg(Red)`.
fn push_red(out: &mut String)
    ensures
        final(out)@ == old(out)@ + red(),
{
    let code = red_code();
    string_push_str(out, code.as_str());
}

/// What termion's `Fg(Magenta)` displays as: its source writes the sequence
/// `ESC [38;5;5m`.
#[verifier::external_body]
fn magenta_code() -> (r: String)
    ensures
        r@ == magenta(),
{
    format!("{}", termion::color::Fg(termion::color::Magenta))
}

/// Appends `Fg(Magenta)`.
fn push_magenta(out: &mut String)
    ensures
        final(out)@ == old(out)@ + magenta(),
{
    let code = magenta_code();
    string_push_str(out, code.as_str());
}

/// What termion's `Fg(Cyan)` displays as: its source writes the sequence
/// `ESC [38;5;6m`.
#[verifier::external_body]
fn cyan_code() -> (r: String)
    ensures
        r@ == cyan(),
{
    format!("{}", termion::color::Fg(termion::color::Cyan))
}

/// Appends `Fg(Cyan)`.
fn push_cyan(out: &mut String)
    ensures
        final(out)@ == old(out)@ + cyan(),
{
    let code = cyan_code();
    string_push_str(out, code.as_str());
}

/// What termion's `Fg(LightRed)` displays as: its source writes the sequence
/// `ESC [38;5;9m`.
#[verifier::external_body]
fn light_red_code() -> (r: String)
    ensures
        r@ == light_red(),
{
    format!("{}", termion::color::Fg(termion::color::LightRed))
}

/// Appends `Fg(LightRed)`.
fn push_light_red(out: &mut String)
    ensures
        final(out)@ == old(out)@ + light_red(),
{
    let code = light_red_code();
    string_push_str(out, code.as_str());
}

/// What termion's `Fg(LightBlue)` displays as: its source writes the sequence
/// `ESC [38;5;12m`.
#[verifier::external_body]
fn light_blue_code() -> (r: String)
    ensures
        r@ == light_blue(),
{
    format!("{}", termion::color::Fg(termion::color::LightBlue))
}

/// Appends `Fg(LightBlue)`.
fn push_light_blue(out: &mut String)
    ensures
        final(out)@ == old(out)@ + light_blue(),
{
    let code = light_blue_code();
    string_push_str(out, code.as_str());
}

/// What termion's `Fg(LightWhite)` displays as: its source writes the sequence
/// `ESC [38;5;15m`.
#[verifier::external_body]
fn light_white_code() -> (r: String)
    ensures
        r@ == light_white(),
{
    format!("{}", termion::color::Fg(termion::color::LightWhite))
}

/// Appends `Fg(LightWhite)`.
fn push_light_white(out: &mut String)
    ensures
        final(out)@ == old(out)@ + light_white(),
{
    let code = light_white_code();
    string_push_str(out, code.as_str());
}

/// What termion's `Fg(Reset)` displays as: its source writes the sequence
/// `ESC [39m`.
#[verifier::external_body]
fn reset_fg_code() -> (r: String)
    ensures
        r@ == reset_fg(),
{
    format!("{}", termion::color::Fg(termion::color::Reset))
}

/// Appends `Fg(Reset)`.
fn push_reset_fg(out: &mut String)
    ensures
        final(out)@ == old(out)@ + reset_fg(),
{
    let code = reset_fg_code();
    string_push_str(out, code.as_str());
}

/// What termion's `style::Bold` displays as: its source writes the sequence
/// `ESC [1m`.
#[verifier::external_body]
fn bold_code() -> (r: String)
    ensures
        r@ == bold(),
{
    format!("{}", termion::style::Bold)
}

/// Appends `style::Bold`.
fn push_bold(out: &mut String)
    ensures
        final(out)@ == old(out)@ + bold(),
{
    let code = bold_code();
    string_push_str(out, code.as_str());
}

/// What termion's `style::Reset` displays as: its source writes the sequence
/// `ESC [m`.
#[verifier::external_body]
fn reset_style_code() -> (r: String)
    ensures
        r@ == reset_style(),
{
    format!("{}", termion::style::Reset)
}

/// Appends `style::Reset`.
fn push_reset_style(out: &mut String)
    ensures
        final(out)@ == old(out)@ + reset_style(),
{
    let code = reset_style_code();
    string_push_str(out, code.as_str());
}

/// `n` spaces.
pub open spec fn spaces(n: nat) -> Seq<char>
    decreases n,
{
    if n == 0 { Seq::empty() } else { spaces((n - 1) as nat).push(' ') }
}

/// A number right-aligned in five columns, as `{:5}` writes it.
pub open spec fn padded5(n: nat) -> Seq<char> {
    let d = decimal(n);
    if d.len() < 5 { spaces((5 - d.len()) as nat) + d } else { d }
}

/// A line with every tab replaced by four spaces.
pub open spec fn expand_tabs(line: Seq<char>) -> Seq<char>
    decreases line.len(),
{
    if line.len() == 0 {
        Seq::empty()
    } else {
        let rest = expand_tabs(line.drop_last());
        if line.last() == '\t' { rest + spaces(4) } else { rest.push(line.last()) }
    }
}

/// The markers under a line: `^` in the columns from `start` up to `end`,
/// four spaces under a tab, a space elsewhere.
pub open spec fn marker_text(line: Seq<char>, start: int, end: int) -> Seq<char>
    decreases line.len(),
{
    if line.len() == 0 {
        Seq::empty()
    } else {
        let c = line.len() - 1;
        let rest = marker_text(line.drop_last(), start, end);
        if start <= c && c < end {
            rest.push('^')
        } else if line.last() == '\t' {
            rest + spaces(4)
        } else {
            rest.push(' ')
        }
    }
}

/// The pieces of a text between its newlines.
pub open spec fn segments(s: Seq<char>) -> Seq<Seq<char>>
    decreases s.len(),
{
    if s.len() == 0 {
        seq![Seq::empty()]
    } else {
        let init = segments(s.drop_last());
        if s.last() == '\n' {
            init.push(Seq::empty())
        } else {
            init.update(init.len() - 1, init.last().push(s.last()))
        }
    }
}

/// A text always has at least one piece.
proof fn lemma_segments_nonempty(s: Seq<char>)
    ensures
        segments(s).len() >= 1,
    decreases s.len(),
{
    if s.len() > 0 {
        lemma_segments_nonempty(s.drop_last());
    }
}

/// A piece without its line ending's carriage return, where a newline follows
/// it.
pub open spec fn line_of(segs: Seq<Seq<char>>, k: int) -> Seq<char> {
    let seg = segs[k];
    if k < segs.len() - 1 && seg.len() > 0 && seg.last() == '\r' { seg.drop_last() } else { seg }
}

/// The number of lines of a text: its pieces, but for an empty piece after
/// the last newline.
pub open spec fn line_count(segs: Seq<Seq<char>>) -> int {
    if segs.len() > 0 && segs.last().len() == 0 { segs.len() - 1 } else { segs.len() as int }
}

/// The rows shown for a span from line `first` to line `last`: its lines,
/// after an empty row where the span does not begin on the first line, as the
/// text from the newline before the span to the newline after it splits.
pub open spec fn shown_rows(source: Seq<char>, first: int, last: int) -> Seq<Seq<char>> {
    let segs = segments(source);
    let hi = if last + 1 < line_count(segs) { last + 1 } else { line_count(segs) };
    let body = if first < hi {
        Seq::new((hi - first) as nat, |i: int| line_of(segs, first + i))
    } else {
        Seq::empty()
    };
    if first > 0 { seq![Seq::empty()] + body } else { body }
}

/// The line of a row numbered `n` (from 0).
pub open spec fn row_line(row: Seq<char>, n: int) -> Seq<char> {
    light_blue() + padded5((n + 1) as nat) + seq![' '] + magenta() + seq!['|', ' '] + bold()
        + light_white() + expand_tabs(row) + reset_fg() + reset_style() + seq!['\n']
}

/// The markers under a row numbered `n` (from 0) of a span: none where they
/// would mark nothing.
pub open spec fn marker_line(row: Seq<char>, n: int, span: Span) -> Seq<char> {
    let start = if n == span.start.line { span.start.column as int } else { 0 };
    let end = if n == span.end.line { span.end.column + 1 } else { row.len() as int };
    if start == end {
        Seq::empty()
    } else {
        spaces(8) + light_red() + bold() + marker_text(row, start, end) + reset_style() + reset_fg()
            + seq!['\n']
    }
}

/// The text of one row numbered `n` (from 0) of a span, with its markers.
pub open spec fn row_text(row: Seq<char>, n: int, span: Span) -> Seq<char> {
    row_line(row, n) + marker_line(row, n, span)
}

/// The rows from index `i` on, numbered from `first + i`.
pub open spec fn rows_text(rows: Seq<Seq<char>>, first: int, span: Span, i: int) -> Seq<char>
    decreases rows.len() - i,
{
    if i >= rows.len() || i < 0 {
        Seq::empty()
    } else {
        row_text(rows[i], first + i, span) + rows_text(rows, first, span, i + 1)
    }
}

/// What is shown of a span in a source text: where it is, and its lines
/// with markers under it.
pub open spec fn source_text(source: Seq<char>, span: Span) -> Seq<char> {
    let first = span.start.line as int;
    seq![' ', ' '] + magenta() + seq!['=', '>', ' '] + light_blue() + span.stream_name@ + seq![':']
        + decimal((span.start.line + 1) as nat) + seq![':'] + decimal((span.start.column + 1) as nat)
        + reset_fg() + seq!['\n', '\n'] + rows_text(shown_rows(source, first, span.end.line as int), first, span, 0)
}

/// The text of the stream named `name`: the last one recorded under the
/// name.
pub open spec fn find_source(sources: Seq<(String, String)>, name: Seq<char>) -> Option<Seq<char>>
    decreases sources.len(),
{
    if sources.len() == 0 {
        None
    } else if sources.last().0@ == name {
        Some(sources.last().1@)
    } else {
        find_source(sources.drop_last(), name)
    }
}

/// What is shown of a span: nothing where its stream was never read.
pub open spec fn span_text(sources: Seq<(String, String)>, span: Span) -> Seq<char> {
    match find_source(sources, span.stream_name@) {
        Some(source) => source_text(source, span),
        None => Seq::empty(),
    }
}

/// Appends `n` spaces.
fn push_spaces(out: &mut String, n: usize)
    ensures
        final(out)@ == old(out)@ + spaces(n as nat),
{
    let mut i: usize = 0;
    while i < n
        invariant
            i <= n,
            out@ == old(out)@ + spaces(i as nat),
        decreases n - i,
    {
        string_push(out, ' ');
        i = i + 1;
        proof {
            assert(old(out)@ + spaces(i as nat) =~= (old(out)@ + spaces((i - 1) as nat)).push(' '));
        }
    }
}

/// How long the decimal form of a number is.
pub proof fn lemma_decimal_len(n: nat)
    ensures
        decimal(n).len() >= 1,
        n < 10 ==> decimal(n).len() == 1,
        n >= 10 ==> decimal(n).len() == decimal(n / 10).len() + 1,
    decreases n,
{
}

/// Appends the decimal form of `n + 1`.
fn push_successor(out: &mut String, n: usize)
    ensures
        final(out)@ == old(out)@ + decimal((n + 1) as nat),
{
    let m: u128 = n as u128 + 1;
    push_decimal_u128(out, m);
}

/// Appends the decimal form of a 128-bit number.
fn push_decimal_u128(out: &mut String, n: u128)
    ensures
        final(out)@ == old(out)@ + decimal(n as nat),
    decreases n,
{
    if n >= 10 {
        push_decimal_u128(out, n / 10);
    }
    let d = (n % 10) as u32;
    push_decimal(out, d);
}

/// How many spaces right-align `n` in five columns.
fn pad_width(n: u128) -> (r: usize)
    ensures
        decimal(n as nat).len() < 5 ==> r == 5 - decimal(n as nat).len(),
        decimal(n as nat).len() >= 5 ==> r == 0,
{
    proof {
        lemma_decimal_len(n as nat);
        lemma_decimal_len((n / 10) as nat);
        lemma_decimal_len((n / 100) as nat);
        lemma_decimal_len((n / 1000) as nat);
        assert((n / 10) as nat / 10 == (n / 100) as nat);
        assert((n / 100) as nat / 10 == (n / 1000) as nat);
    }
    if n < 10 {
        4
    } else if n < 100 {
        3
    } else if n < 1000 {
        2
    } else if n < 10000 {
        1
    } else {
        proof {
            lemma_decimal_len((n / 10000) as nat);
            assert((n / 1000) as nat / 10 == (n / 10000) as nat);
        }
        0
    }
}

/// Appends `n + 1` right-aligned in five columns.
fn push_padded_successor(out: &mut String, n: usize)
    ensures
        final(out)@ == old(out)@ + padded5((n + 1) as nat),
{
    let m: u128 = n as u128 + 1;
    let k = pad_width(m);
    push_spaces(out, k);
    push_decimal_u128(out, m);
    proof {
        if decimal(m as nat).len() >= 5 {
            assert(spaces(0) =~= Seq::<char>::empty());
        }
        assert(old(out)@ + padded5((n + 1) as nat) =~= old(out)@ + spaces(k as nat) + decimal(m as nat));
    }
}

/// Appends a line with every tab replaced by four spaces.
fn push_expanded(out: &mut String, line: &Vec<char>)
    ensures
        final(out)@ == old(out)@ + expand_tabs(line@),
{
    let n = line.len();
    let mut i: usize = 0;
    while i < n
        invariant
            n == line@.len(),
            i <= n,
            out@ == old(out)@ + expand_tabs(line@.take(i as int)),
        decreases n - i,
    {
        let c = line[i];
        let ghost before = out@;
        if c == '\t' {
            push_spaces(out, 4);
        } else {
            string_push(out, c);
        }
        proof {
            assert(line@.take(i + 1).drop_last() =~= line@.take(i as int));
            assert(line@.take(i + 1).last() == c);
        }
        i = i + 1;
        proof {
            assert(out@ =~= old(out)@ + expand_tabs(line@.take(i as int)));
        }
    }
    proof {
        assert(line@.take(n as int) =~= line@);
    }
}

/// Appends the markers under a line.
fn push_markers(out: &mut String, line: &Vec<char>, start: usize, end: usize)
    ensures
        final(out)@ == old(out)@ + marker_text(line@, start as int, end as int),
{
    let n = line.len();
    let mut i: usize = 0;
    while i < n
        invariant
            n == line@.len(),
            i <= n,
            out@ == old(out)@ + marker_text(line@.take(i as int), start as int, end as int),
        decreases n - i,
    {
        let c = line[i];
        if start <= i && i < end {
            string_push(out, '^');
        } else if c == '\t' {
            push_spaces(out, 4);
        } else {
            string_push(out, ' ');
        }
        proof {
            assert(line@.take(i + 1).drop_last() =~= line@.take(i as int));
            assert(line@.take(i + 1).last() == c);
        }
        i = i + 1;
        proof {
            assert(out@ =~= old(out)@ + marker_text(line@.take(i as int), start as int, end as int));
        }
    }
    proof {
        assert(line@.take(n as int) =~= line@);
    }
}

/// The pieces of a text between its newlines.
fn split_segments(s: &Vec<char>) -> (r: Vec<Vec<char>>)
    ensures
        r@.len() == segments(s@).len(),
        forall|k: int| 0 <= k < r@.len() ==> (#[trigger] r@[k])@ == segments(s@)[k],
{
    let mut done: Vec<Vec<char>> = Vec::new();
    let mut current: Vec<char> = Vec::new();
    let n = s.len();
    let mut i: usize = 0;
    proof {
        assert(s@.take(0) =~= Seq::<char>::empty());
    }
    while i < n
        invariant
            n == s@.len(),
            i <= n,
            done@.len() + 1 == segments(s@.take(i as int)).len(),
            forall|k: int| 0 <= k < done@.len() ==> (#[trigger] done@[k])@ == segments(s@.take(i as int))[k],
            current@ == segments(s@.take(i as int)).last(),
        decreases n - i,
    {
        let c = s[i];
        let ghost prev = segments(s@.take(i as int));
        proof {
            assert(s@.take(i + 1).drop_last() =~= s@.take(i as int));
            assert(s@.take(i + 1).last() == c);
        }
        if c == '\n' {
            let line = current;
            done.push(line);
            current = Vec::new();
        } else {
            current.push(c);
        }
        i = i + 1;
        proof {
            let segs = segments(s@.take(i as int));
            if c == '\n' {
                assert(segs == prev.push(Seq::<char>::empty()));
            } else {
                assert(segs == prev.update(prev.len() - 1, prev.last().push(c)));
                assert forall|k: int| 0 <= k < done@.len() implies (#[trigger] done@[k])@ == segs[k] by {}
            }
        }
    }
    done.push(current);
    proof {
        assert(s@.take(n as int) =~= s@);
    }
    done
}

/// Appends the line of a row numbered `n` from 0.
fn push_row_line(out: &mut String, row: &Vec<char>, n: usize)
    ensures
        final(out)@ == old(out)@ + row_line(row@, n as int),
{
    push_light_blue(out);
    push_padded_successor(out, n);
    string_push(out, ' ');
    push_magenta(out);
    string_push(out, '|');
    string_push(out, ' ');
    push_bold(out);
    push_light_white(out);
    push_expanded(out, row);
    push_reset_fg(out);
    push_reset_style(out);
    string_push(out, '\n');
    proof {
        assert(out@ =~= old(out)@ + row_line(row@, n as int));
    }
}

/// Appends the markers under a row numbered `n` from 0.
fn push_marker_line(out: &mut String, row: &Vec<char>, n: usize, span: &Span)
    ensures
        final(out)@ == old(out)@ + marker_line(row@, n as int, *span),
{
    let start: usize = if n == span.start.line { span.start.column } else { 0 };
    let len = row.len();
    let end: u128 = if n == span.end.line { span.end.column as u128 + 1 } else { len as u128 };
    if start as u128 != end {
        push_spaces(out, 8);
        push_light_red(out);
        push_bold(out);
        let end_col: usize = if end > len as u128 { len } else { end as usize };
        push_markers(out, row, start, end_col);
        proof {
            lemma_markers_clamp(row@, start as int, end as int, end_col as int);
        }
        push_reset_style(out);
        push_reset_fg(out);
        string_push(out, '\n');
        proof {
            assert(out@ =~= old(out)@ + marker_line(row@, n as int, *span));
        }
    } else {
        proof {
            assert(out@ =~= old(out)@ + marker_line(row@, n as int, *span));
        }
    }
}

/// Appends one row of a span, numbered `n` from 0, with its markers.
fn push_row(out: &mut String, row: &Vec<char>, n: usize, span: &Span)
    ensures
        final(out)@ == old(out)@ + row_text(row@, n as int, *span),
{
    push_row_line(out, row, n);
    push_marker_line(out, row, n, span);
    proof {
        assert(out@ =~= old(out)@ + row_text(row@, n as int, *span));
    }
}

/// Columns past the end of a line mark nothing more.
proof fn lemma_markers_clamp(line: Seq<char>, start: int, end: int, clamped: int)
    requires
        clamped == if end > line.len() { line.len() as int } else { end },
    ensures
        marker_text(line, start, end) == marker_text(line, start, clamped),
{
    if end > line.len() {
        lemma_markers_same(line, start, end, clamped);
    }
}

/// Ends at or beyond a line's length mark the same.
proof fn lemma_markers_same(line: Seq<char>, start: int, e1: int, e2: int)
    requires
        e1 >= line.len(),
        e2 >= line.len(),
    ensures
        marker_text(line, start, e1) == marker_text(line, start, e2),
    decreases line.len(),
{
    if line.len() > 0 {
        lemma_markers_same(line.drop_last(), start, e1, e2);
    }
}

/// Appends the rows shown of `span` in a text whose pieces are `segs`.
fn push_rows(out: &mut String, chars: &Vec<char>, span: &Span)
    ensures
        final(out)@ == old(out)@ + rows_text(
            shown_rows(chars@, span.start.line as int, span.end.line as int),
            span.start.line as int,
            *span,
            0,
        ),
{
    let segs = split_segments(chars);
    proof {
        lemma_segments_nonempty(chars@);
    }
    let ghost sg = segments(chars@);
    let count: usize = if segs[segs.len() - 1].len() == 0 { segs.len() - 1 } else { segs.len() };
    let first = span.start.line;
    let last = span.end.line;
    let hi: usize = if (last as u128) + 1 < count as u128 { last + 1 } else { count };
    let ghost rows = shown_rows(chars@, first as int, last as int);
    let ghost body = if first < hi {
        Seq::new((hi - first) as nat, |j: int| line_of(sg, first + j))
    } else {
        Seq::<Seq<char>>::empty()
    };
    let ghost pre = if first > 0 { seq![Seq::<char>::empty()] } else { Seq::<Seq<char>>::empty() };
    proof {
        assert(count == line_count(sg));
        assert(rows == pre + body);
    }
    let ghost head = out@;
    let mut i: usize = 0;
    if first > 0 {
        let empty: Vec<char> = Vec::new();
        proof {
            assert(empty@ == rows[0]);
        }
        push_row(out, &empty, first, span);
        i = 1;
    }
    let mut k: usize = first;
    if first < hi {
    while k < hi
        invariant
            hi <= segs@.len(),
            segs@.len() == sg.len(),
            forall|j: int| 0 <= j < segs@.len() ==> (#[trigger] segs@[j])@ == sg[j],
            first <= k <= hi,
            first < hi,
            i <= k,
            pre.len() == (if first > 0 { 1int } else { 0 }),
            i == pre.len() + (k - first),
            rows == pre + body,
            body.len() == hi - first,
            forall|j: int| 0 <= j < body.len() ==> #[trigger] body[j] == line_of(sg, first + j),
            out@ + rows_text(rows, first as int, *span, i as int) == head + rows_text(rows, first as int, *span, 0),
        decreases hi - k,
    {
        let mut row: Vec<char> = segs[k].clone();
        let m = row.len();
        if k + 1 < segs.len() && m > 0 && row[m - 1] == '\r' {
            row.pop();
        }
        proof {
            assert(row@ =~= line_of(sg, k as int));
            assert(rows[i as int] == body[k - first]);
        }
        let num: usize = if first > 0 { k + 1 } else { k };
        let ghost i0 = i as int;
        let ghost out0 = out@;
        proof {
            assert(num == first + i0);
            assert(i0 < rows.len());
            assert(rows_text(rows, first as int, *span, i0) == row_text(rows[i0], first + i0, *span)
                + rows_text(rows, first as int, *span, i0 + 1));
        }
        push_row(out, &row, num, span);
        i = i + 1;
        k = k + 1;
        proof {
            assert(out@ + rows_text(rows, first as int, *span, i as int) =~= out0 + rows_text(rows, first as int, *span, i0));
        }
    }
    }
    proof {
        if first >= hi {
            assert(body.len() == 0);
        }
        assert(i == rows.len());
    }
}

/// Appends what is shown of `span` in the text `source`.
pub fn push_source(out: &mut String, source: &String, span: &Span)
    ensures
        final(out)@ == old(out)@ + source_text(source@, *span),
{
    string_push(out, ' ');
    string_push(out, ' ');
    push_magenta(out);
    string_push(out, '=');
    string_push(out, '>');
    string_push(out, ' ');
    push_light_blue(out);
    string_push_str(out, span.stream_name.as_str());
    string_push(out, ':');
    push_successor(out, span.start.line);
    string_push(out, ':');
    push_successor(out, span.start.column);
    push_reset_fg(out);
    string_push(out, '\n');
    string_push(out, '\n');
    let chars = chars_of(source.as_str());
    push_rows(out, &chars, span);
    proof {
        assert(out@ =~= old(out)@ + source_text(source@, *span));
    }
}

/// The name of a type as `Debug` writes it.
pub open spec fn type_debug(t: Type) -> Seq<char> {
    match t {
        Type::Any => "Any"@,
        Type::Bool => "Bool"@,
        Type::Float => "Float"@,
        Type::Number => "Number"@,
        Type::List => "List"@,
        Type::Scope => "Scope"@,
        Type::String => "String"@,
        Type::Symbol => "Symbol"@,
        Type::Word => "Word"@,
    }
}

/// The names of types separated by commas.
pub open spec fn join_types(sig: Seq<Type>) -> Seq<char>
    decreases sig.len(),
{
    if sig.len() == 0 {
        Seq::empty()
    } else if sig.len() == 1 {
        type_debug(sig[0])
    } else {
        join_types(sig.drop_last()) + ", "@ + type_debug(sig.last())
    }
}

/// A signature as `Debug` writes a list of types.
pub open spec fn signature_text(sig: Seq<Type>) -> Seq<char> {
    "["@ + join_types(sig) + "]"@
}

/// Signatures, each on a line after `indent`.
pub open spec fn signature_lines(sigs: Seq<Seq<Type>>, indent: Seq<char>) -> Seq<char>
    decreases sigs.len(),
{
    if sigs.len() == 0 {
        Seq::empty()
    } else {
        signature_lines(sigs.drop_last(), indent) + indent + signature_text(sigs.last()) + "\n"@
    }
}

/// The message of a conflicting definition.
pub open spec fn define_message(e: DefineError) -> Seq<char> {
    "Conflicting function found defining `"@ + e.name@ + "`:\n"@ + signature_lines(
        crate::node::signatures_view(e.conflicting@),
        Seq::empty(),
    )
}

/// A character as `Debug` writes it, for the characters that it escapes by a
/// backslash; other characters stand as they are.
pub open spec fn char_debug(c: char) -> Seq<char> {
    let inner = if c == '\n' {
        "\\n"@
    } else if c == '\t' {
        "\\t"@
    } else if c == '\r' {
        "\\r"@
    } else if c == '\'' {
        "\\'"@
    } else if c == '\\' {
        "\\\\"@
    } else if c == '\0' {
        "\\0"@
    } else {
        seq![c]
    };
    "'"@ + inner + "'"@
}

/// A tokenizer error as `Debug` writes it.
pub open spec fn tokenizer_error_debug(e: tokenizer::Error) -> Seq<char> {
    match e {
        tokenizer::Error::Reader(reader::Error::EndOfStream) => "Reader(EndOfStream)"@,
        tokenizer::Error::Reader(reader::Error::Utf8 { index }) => "Reader(Utf8 { index: "@ + decimal(
            index as nat,
        ) + " })"@,
        tokenizer::Error::UnexpectedEscapeCode(c) => "UnexpectedEscapeCode("@ + char_debug(c) + ")"@,
    }
}

/// How a token kind is shown.
pub open spec fn token_kind_text(k: TokenKindView) -> Seq<char> {
    match k {
        TokenKindView::ListOpen => "["@,
        TokenKindView::ListClose => "]"@,
        TokenKindView::Bool(b) => if b { "true"@ } else { "false"@ },
        TokenKindView::Float(f) => f.text@,
        TokenKindView::Number(n) => decimal(n as nat),
        TokenKindView::String(s) => s,
        TokenKindView::Symbol(s) => ":"@ + s,
        TokenKindView::Word(s) => s,
    }
}

/// The message of a parse error.
pub open spec fn parser_message(e: parser::Error) -> Seq<char> {
    match e {
        parser::Error::Tokenizer(t) => "Tokenizer error:\n"@ + tokenizer_error_debug(t),
        parser::Error::UnexpectedToken(t) => "Unexpected token: `"@ + token_kind_text(t.kind@) + "`"@,
        parser::Error::EndOfStream => "End of stream"@,
    }
}

/// The message of an evaluation error.
pub open spec fn eval_message(e: EvalError) -> Seq<char> {
    match e {
        EvalError::Caller => "No caller found"@,
        EvalError::DefineFunction(d) => define_message(d),
        EvalError::Failure => "Explicit failure"@,
        EvalError::FunctionNotFound { name, .. } => "No matching function found: `"@ + name@ + "`"@,
        EvalError::ModuleNotFound(name) => "Module not found: "@ + name@,
        EvalError::Parser(p) => parser_message(p),
        EvalError::Stack(s) => stack_error_message(s),
        EvalError::Type(t) => type_error_message(t),
        EvalError::Overflow => "Arithmetic overflow"@,
        EvalError::DivisionByZero => "Division by zero"@,
        EvalError::Incomparable => "Scopes can't be compared"@,
        EvalError::RecursionLimit => "Functions nested too deeply"@,
        EvalError::InvalidScope => "Scope not found"@,
    }
}

/// The hint after an evaluation error: for a function that was not found,
/// the values on the stack and the candidates, or that there are none, and
/// the scope the lookup began in.
pub open spec fn eval_hint(e: EvalError) -> Seq<char> {
    match e {
        EvalError::FunctionNotFound { stack, candidates, scope, .. } => found_hint(
            stack@,
            crate::node::signatures_view(candidates@),
        ) + scope_hint(scope@),
        _ => Seq::empty(),
    }
}

/// The message of an error.
pub open spec fn error_message(kind: ErrorKind) -> Seq<char> {
    match kind {
        ErrorKind::Context(e) => eval_message(e),
        ErrorKind::Parser(e) => parser_message(e),
    }
}

/// The hint of an error.
pub open spec fn error_hint(kind: ErrorKind) -> Seq<char> {
    match kind {
        ErrorKind::Context(e) => eval_hint(e),
        ErrorKind::Parser(_) => Seq::empty(),
    }
}

/// The places shown of some spans.
pub open spec fn spans_text(sources: Seq<(String, String)>, spans: Seq<Span>) -> Seq<char>
    decreases spans.len(),
{
    if spans.len() == 0 {
        Seq::empty()
    } else {
        spans_text(sources, spans.drop_last()) + span_text(sources, spans.last())
    }
}

/// The functions being evaluated, from the innermost out, each shown as a
/// caller; frames without a span show only the heading.
pub open spec fn frames_text(sources: Seq<(String, String)>, frames: Seq<StackFrame>) -> Seq<char>
    decreases frames.len(),
{
    if frames.len() == 0 {
        Seq::empty()
    } else {
        let f = frames.last();
        let shown = match f.span {
            Some(s) => span_text(sources, s),
            None => Seq::empty(),
        };
        "\n"@ + cyan() + "Called by:"@ + reset_fg() + "\n"@ + shown + frames_text(sources, frames.drop_last())
    }
}

/// The places in the source that an error refers to.
pub open spec fn error_spans(kind: ErrorKind) -> Seq<Span> {
    match kind {
        ErrorKind::Context(e) => crate::context::eval_spans(e),
        ErrorKind::Parser(e) => crate::context::eval_spans(EvalError::Parser(e)),
    }
}

/// The whole report of an error.
pub open spec fn report_text(sources: Seq<(String, String)>, kind: ErrorKind, spans: Seq<Span>, frames: Seq<StackFrame>) -> Seq<char> {
    "\n"@ + red() + bold() + "ERROR:"@ + reset_fg() + " "@ + error_message(kind) + reset_style() + "\n"@
        + spans_text(sources, spans) + error_hint(kind) + frames_text(sources, frames) + "\n"@
}

/// Appends the names of types separated by commas, in brackets.
fn push_signature(out: &mut String, sig: &Vec<Type>)
    ensures
        final(out)@ == old(out)@ + signature_text(sig@),
{
    string_push_str(out, "[");
    let n = sig.len();
    let mut i: usize = 0;
    while i < n
        invariant
            n == sig@.len(),
            i <= n,
            out@ == old(out)@ + "["@ + join_types(sig@.take(i as int)),
        decreases n - i,
    {
        if i > 0 {
            string_push_str(out, ", ");
        }
        push_type_debug(out, sig[i]);
        proof {
            assert(sig@.take(i + 1).drop_last() =~= sig@.take(i as int));
            if i == 0 {
                assert(sig@.take(0) =~= Seq::<Type>::empty());
            }
        }
        i = i + 1;
        proof {
            assert(out@ =~= old(out)@ + "["@ + join_types(sig@.take(i as int)));
        }
    }
    string_push_str(out, "]");
    proof {
        assert(sig@.take(n as int) =~= sig@);
        assert(out@ =~= old(out)@ + signature_text(sig@));
    }
}

/// Appends the name of a type as `Debug` writes it.
fn push_type_debug(out: &mut String, t: Type)
    ensures
        final(out)@ == old(out)@ + type_debug(t),
{
    match t {
        Type::Any => string_push_str(out, "Any"),
        Type::Bool => string_push_str(out, "Bool"),
        Type::Float => string_push_str(out, "Float"),
        Type::Number => string_push_str(out, "Number"),
        Type::List => string_push_str(out, "List"),
        Type::Scope => string_push_str(out, "Scope"),
        Type::String => string_push_str(out, "String"),
        Type::Symbol => string_push_str(out, "Symbol"),
        Type::Word => string_push_str(out, "Word"),
    }
}

/// Appends signatures, each on a line after `indent`.
fn push_signature_lines(out: &mut String, sigs: &Vec<Vec<Type>>, indent: &str)
    ensures
        final(out)@ == old(out)@ + signature_lines(crate::node::signatures_view(sigs@), indent@),
{
    let n = sigs.len();
    let mut i: usize = 0;
    let ghost all = crate::node::signatures_view(sigs@);
    while i < n
        invariant
            n == sigs@.len(),
            i <= n,
            all == crate::node::signatures_view(sigs@),
            out@ == old(out)@ + signature_lines(all.take(i as int), indent@),
        decreases n - i,
    {
        string_push_str(out, indent);
        push_signature(out, &sigs[i]);
        string_push_str(out, "\n");
        proof {
            assert(all.take(i + 1).drop_last() =~= all.take(i as int));
            assert(all.take(i + 1).last() == sigs@[i as int]@);
        }
        i = i + 1;
        proof {
            assert(out@ =~= old(out)@ + signature_lines(all.take(i as int), indent@));
        }
    }
    proof {
        assert(all.take(n as int) =~= all);
    }
}

impl DefineError {
    /// The message of the error.
    pub fn message(&self) -> (r: String)
        ensures
            r@ == define_message(*self),
    {
        let mut out = String::new();
        string_push_str(&mut out, "Conflicting function found defining `");
        string_push_str(&mut out, self.name.as_str());
        string_push_str(&mut out, "`:\n");
        push_signature_lines(&mut out, &self.conflicting, "");
        proof {
            reveal_strlit("");
            assert(""@ =~= Seq::<char>::empty());
            assert(out@ =~= define_message(*self));
        }
        out
    }
}

/// Appends a character as `Debug` writes it.
fn push_char_debug(out: &mut String, c: char)
    ensures
        final(out)@ == old(out)@ + char_debug(c),
{
    string_push_str(out, "'");
    if c == '\n' {
        string_push_str(out, "\\n");
    } else if c == '\t' {
        string_push_str(out, "\\t");
    } else if c == '\r' {
        string_push_str(out, "\\r");
    } else if c == '\'' {
        string_push_str(out, "\\'");
    } else if c == '\\' {
        string_push_str(out, "\\\\");
    } else if c == '\0' {
        string_push_str(out, "\\0");
    } else {
        string_push(out, c);
    }
    string_push_str(out, "'");
    proof {
        assert(out@ =~= old(out)@ + char_debug(c));
    }
}

/// Appends how a token kind is shown.
fn push_token_kind(out: &mut String, k: &TokenKind)
    ensures
        final(out)@ == old(out)@ + token_kind_text(k@),
{
    match k {
        TokenKind::ListOpen => string_push_str(out, "["),
        TokenKind::ListClose => string_push_str(out, "]"),
        TokenKind::Bool(b) => if *b {
            string_push_str(out, "true")
        } else {
            string_push_str(out, "false")
        },
        TokenKind::Float(f) => string_push_str(out, f.text.as_str()),
        TokenKind::Number(n) => push_decimal(out, *n),
        TokenKind::String(s) => string_push_str(out, s.as_str()),
        TokenKind::Symbol(s) => {
            string_push_str(out, ":");
            string_push_str(out, s.as_str());
        },
        TokenKind::Word(s) => string_push_str(out, s.as_str()),
    }
}

impl parser::Error {
    /// The message of the error.
    pub fn message(&self) -> (r: String)
        ensures
            r@ == parser_message(*self),
    {
        let mut out = String::new();
        match self {
            parser::Error::Tokenizer(t) => {
                string_push_str(&mut out, "Tokenizer error:\n");
                match t {
                    tokenizer::Error::Reader(reader::Error::EndOfStream) => {
                        string_push_str(&mut out, "Reader(EndOfStream)");
                    },
                    tokenizer::Error::Reader(reader::Error::Utf8 { index }) => {
                        string_push_str(&mut out, "Reader(Utf8 { index: ");
                        push_decimal_usize(&mut out, *index);
                        string_push_str(&mut out, " })");
                    },
                    tokenizer::Error::UnexpectedEscapeCode(c) => {
                        string_push_str(&mut out, "UnexpectedEscapeCode(");
                        push_char_debug(&mut out, *c);
                        string_push_str(&mut out, ")");
                    },
                }
            },
            parser::Error::UnexpectedToken(t) => {
                string_push_str(&mut out, "Unexpected token: `");
                push_token_kind(&mut out, &t.kind);
                string_push_str(&mut out, "`");
            },
            parser::Error::EndOfStream => {
                string_push_str(&mut out, "End of stream");
            },
        }
        proof {
            assert(out@ =~= parser_message(*self));
        }
        out
    }
}

/// Appends the decimal form of `n`.
fn push_decimal_usize(out: &mut String, n: usize)
    ensures
        final(out)@ == old(out)@ + decimal(n as nat),
{
    push_decimal_u128(out, n as u128);
}

impl EvalError {
    /// The message of the error.
    pub fn message(&self) -> (r: String)
        ensures
            r@ == eval_message(*self),
    {
        let mut out = String::new();
        match self {
            EvalError::Caller => string_push_str(&mut out, "No caller found"),
            EvalError::DefineFunction(d) => {
                out = d.message();
            },
            EvalError::Failure => string_push_str(&mut out, "Explicit failure"),
            EvalError::FunctionNotFound { name, .. } => {
                string_push_str(&mut out, "No matching function found: `");
                string_push_str(&mut out, name.as_str());
                string_push_str(&mut out, "`");
            },
            EvalError::ModuleNotFound(name) => {
                string_push_str(&mut out, "Module not found: ");
                string_push_str(&mut out, name.as_str());
            },
            EvalError::Parser(p) => {
                out = p.message();
            },
            EvalError::Stack(s) => {
                out = s.message();
            },
            EvalError::Type(t) => {
                out = t.message();
            },
            EvalError::Overflow => string_push_str(&mut out, "Arithmetic overflow"),
            EvalError::DivisionByZero => string_push_str(&mut out, "Division by zero"),
            EvalError::Incomparable => string_push_str(&mut out, "Scopes can't be compared"),
            EvalError::RecursionLimit => string_push_str(&mut out, "Functions nested too deeply"),
            EvalError::InvalidScope => string_push_str(&mut out, "Scope not found"),
        }
        proof {
            assert(out@ =~= eval_message(*self));
        }
        out
    }

    /// Appends the hint after the error: for a function that was not found,
    /// the values on the stack and the candidate functions, and the scope.
    pub fn write_hint(&self, out: &mut String)
        ensures
            final(out)@ == old(out)@ + eval_hint(*self),
    {
        match self {
            EvalError::FunctionNotFound { stack, candidates, scope, .. } => {
                push_found_hint(out, stack, candidates);
                push_scope_hint(out, scope);
                proof {
                    assert(out@ =~= old(out)@ + eval_hint(*self));
                }
            },
            _ => {
                proof {
                    assert(out@ =~= old(out)@ + eval_hint(*self));
                }
            },
        }
    }
}

/// The part of the hint that shows the values on the stack and the
/// candidates, or that there are none.
pub open spec fn found_hint(stack: Seq<crate::value::Any>, candidates: Seq<Seq<Type>>) -> Seq<char> {
    if candidates.len() > 0 {
        cyan() + "Values on stack:"@ + reset_fg() + "\n"@ + "    "@ + bold() + light_white()
            + display_values(stack) + reset_fg() + reset_style() + "\n\n"@ + cyan()
            + "Candidate functions:"@ + reset_fg() + "\n"@ + signature_lines(candidates, "    "@)
    } else {
        cyan() + "No functions of that name found."@ + reset_fg() + "\n"@
    }
}

/// The part of the hint that shows the scope.
pub open spec fn scope_hint(scope: Seq<char>) -> Seq<char> {
    cyan() + "Scope: "@ + reset_fg() + bold() + light_white() + "`"@ + scope + "`"@ + reset_fg()
        + reset_style() + "\n"@
}

/// Appends the values on the stack and the candidates, or that there are
/// none.
fn push_found_hint(out: &mut String, stack: &crate::stack::Stack, candidates: &Vec<Vec<Type>>)
    ensures
        final(out)@ == old(out)@ + found_hint(stack@, crate::node::signatures_view(candidates@)),
{
    if candidates.len() > 0 {
        push_cyan(out);
        string_push_str(out, "Values on stack:");
        push_reset_fg(out);
        string_push_str(out, "\n");
        string_push_str(out, "    ");
        push_bold(out);
        push_light_white(out);
        let shown = stack.to_display();
        string_push_str(out, shown.as_str());
        push_reset_fg(out);
        push_reset_style(out);
        string_push_str(out, "\n\n");
        push_cyan(out);
        string_push_str(out, "Candidate functions:");
        push_reset_fg(out);
        string_push_str(out, "\n");
        push_signature_lines(out, candidates, "    ");
    } else {
        push_cyan(out);
        string_push_str(out, "No functions of that name found.");
        push_reset_fg(out);
        string_push_str(out, "\n");
    }
    proof {
        assert(out@ =~= old(out)@ + found_hint(stack@, crate::node::signatures_view(candidates@)));
    }
}

/// Appends the scope of a failed lookup.
fn push_scope_hint(out: &mut String, scope: &String)
    ensures
        final(out)@ == old(out)@ + scope_hint(scope@),
{
    push_cyan(out);
    string_push_str(out, "Scope: ");
    push_reset_fg(out);
    push_bold(out);
    push_light_white(out);
    string_push_str(out, "`");
    string_push_str(out, scope.as_str());
    string_push_str(out, "`");
    push_reset_fg(out);
    push_reset_style(out);
    string_push_str(out, "\n");
    proof {
        assert(out@ =~= old(out)@ + scope_hint(scope@));
    }
}

impl ErrorKind {
    /// The message of the error.
    pub fn message(&self) -> (r: String)
        ensures
            r@ == error_message(*self),
    {
        match self {
            ErrorKind::Context(e) => e.message(),
            ErrorKind::Parser(e) => e.message(),
        }
    }

    /// Appends the hint after the error.
    pub fn write_hint(&self, out: &mut String)
        ensures
            final(out)@ == old(out)@ + error_hint(*self),
    {
        match self {
            ErrorKind::Context(e) => e.write_hint(out),
            ErrorKind::Parser(_) => {
                proof {
                    assert(out@ =~= old(out)@ + error_hint(*self));
                }
            },
        }
    }
}

/// The text recorded for the stream `name`: the last one under the name.
fn lookup_source<'a>(sources: &'a Vec<(String, String)>, name: &String) -> (r: Option<&'a String>)
    ensures
        match find_source(sources@, name@) {
            Some(s) => r matches Some(t) && t@ == s,
            None => r is None,
        },
{
    let mut i: usize = sources.len();
    proof {
        assert(sources@.take(i as int) =~= sources@);
    }
    while i > 0
        invariant
            i <= sources@.len(),
            find_source(sources@, name@) == find_source(sources@.take(i as int), name@),
        decreases i,
    {
        proof {
            assert(sources@.take(i as int).drop_last() =~= sources@.take(i - 1));
            assert(sources@.take(i as int).last() == sources@[i - 1]);
        }
        if sources[i - 1].0 == *name {
            return Some(&sources[i - 1].1);
        }
        i = i - 1;
    }
    None
}

/// Appends what is shown of `span`, from the text recorded for its stream.
fn push_span(out: &mut String, sources: &Vec<(String, String)>, span: &Span)
    ensures
        final(out)@ == old(out)@ + span_text(sources@, *span),
{
    proof {
        assert(sources@.take(sources@.len() as int) =~= sources@);
    }
    match lookup_source(sources, &span.stream_name) {
        Some(source) => push_source(out, source, span),
        None => {
            proof {
                assert(out@ =~= old(out)@ + span_text(sources@, *span));
            }
        },
    }
}

impl Error {
    /// The report of the error, as the terminal shows it: the message, the
    /// source of every span the error refers to, the hint, and every function
    /// that was being evaluated, from the innermost out.
    pub fn print(&self, sources: &Vec<(String, String)>) -> (r: String)
        ensures
            r@ == report_text(sources@, self.kind, error_spans(self.kind), self.call_stack.frames@),
    {
        let mut out = String::new();
        string_push_str(&mut out, "\n");
        push_red(&mut out);
        push_bold(&mut out);
        string_push_str(&mut out, "ERROR:");
        push_reset_fg(&mut out);
        string_push_str(&mut out, " ");
        let message = self.kind.message();
        string_push_str(&mut out, message.as_str());
        push_reset_style(&mut out);
        string_push_str(&mut out, "\n");
        let spans = self.kind.spans();
        let ghost head = out@;
        let mut i: usize = 0;
        while i < spans.len()
            invariant
                i <= spans@.len(),
                out@ == head + spans_text(sources@, spans@.take(i as int)),
            decreases spans@.len() - i,
        {
            push_span(&mut out, sources, &spans[i]);
            proof {
                assert(spans@.take(i + 1).drop_last() =~= spans@.take(i as int));
            }
            i = i + 1;
        }
        proof {
            assert(spans@.take(spans@.len() as int) =~= spans@);
        }
        self.kind.write_hint(&mut out);
        let frames = &self.call_stack.frames;
        let ghost mid = out@;
        let mut k: usize = frames.len();
        proof {
            assert(frames@.take(k as int) =~= frames@);
        }
        while k > 0
            invariant
                k <= frames@.len(),
                out@ + frames_text(sources@, frames@.take(k as int)) == mid + frames_text(sources@, frames@),
            decreases k,
        {
            let ghost before = out@;
            proof {
                assert(frames@.take(k as int).drop_last() =~= frames@.take(k - 1));
                assert(frames@.take(k as int).last() == frames@[k - 1]);
            }
            string_push_str(&mut out, "\n");
            push_cyan(&mut out);
            string_push_str(&mut out, "Called by:");
            push_reset_fg(&mut out);
            string_push_str(&mut out, "\n");
            match &frames[k - 1].span {
                Some(s) => push_span(&mut out, sources, s),
                None => {},
            }
            k = k - 1;
            proof {
                assert(out@ + frames_text(sources@, frames@.take(k as int)) =~= before + frames_text(
                    sources@,
                    frames@.take(k + 1),
                ));
            }
        }
        proof {
            assert(frames@.take(frames@.len() as int) =~= frames@);
            assert(frames@.take(0) =~= Seq::<StackFrame>::empty());
        }
        string_push_str(&mut out, "\n");
        proof {
            assert(out@ =~= report_text(sources@, self.kind, spans@, self.call_stack.frames@));
        }
        out
    }
}

} // verus!
