//! Locations in source code: positions, spans and their merging.

use vstd::prelude::*;

verus! {

/// A position within a stream of source code.
#[derive(Copy, Debug, PartialEq, Eq, Structural)]
pub struct Position {
    /// The line, starting at 0
    pub line: usize,
    /// The column, starting at 0
    pub column: usize,
    /// The byte index within the stream
    pub index: usize,
}

impl Clone for Position {
    fn clone(&self) -> (r: Self)
        ensures
            r == *self,
    {
        *self
    }
}

impl Default for Position {
    fn default() -> (r: Self)
        ensures
            r == (Position { line: 0, column: 0, index: 0 }),
    {
        Position { line: 0, column: 0, index: 0 }
    }
}

/// Positions are ordered by line, then column, then byte index.
pub open spec fn pos_lt(a: Position, b: Position) -> bool {
    ||| a.line < b.line
    ||| (a.line == b.line && a.column < b.column)
    ||| (a.line == b.line && a.column == b.column && a.index < b.index)
}

/// The earlier of two positions.
pub open spec fn pos_min(a: Position, b: Position) -> Position {
    if pos_lt(b, a) { b } else { a }
}

/// The later of two positions.
pub open spec fn pos_max(a: Position, b: Position) -> Position {
    if pos_lt(a, b) { b } else { a }
}

impl Position {
    /// Whether `self` comes strictly before `other`.
    pub fn is_before(&self, other: &Position) -> (r: bool)
        ensures
            r == pos_lt(*self, *other),
    {
        if self.line != other.line {
            self.line < other.line
        } else if self.column != other.column {
            self.column < other.column
        } else {
            self.index < other.index
        }
    }
}

/// A location in the source code.
///
/// Used to identify where tokens, values, etc. originate in the source code.
#[derive(Debug, PartialEq, Eq)]
pub struct Span {
    /// The stream this span refers to
    pub stream_name: String,
    /// The position of the first character in the span
    pub start: Position,
    /// The position of the last character in the span
    pub end: Position,
}

impl Clone for Span {
    fn clone(&self) -> (r: Self)
        ensures
            r == *self,
    {
        Span { stream_name: self.stream_name.clone(), start: self.start, end: self.end }
    }
}

impl Default for Span {
    fn default() -> (r: Self)
        ensures
            r.stream_name@ == Seq::<char>::empty(),
            r.start == (Position { line: 0, column: 0, index: 0 }),
            r.end == (Position { line: 0, column: 0, index: 0 }),
    {
        Span {
            stream_name: String::new(),
            start: Position { line: 0, column: 0, index: 0 },
            end: Position { line: 0, column: 0, index: 0 },
        }
    }
}

/// The span that covers both `a` and `b`; it keeps the stream of `a`.
pub open spec fn span_merge(a: Span, b: Span) -> Span {
    Span { stream_name: a.stream_name, start: pos_min(a.start, b.start), end: pos_max(a.end, b.end) }
}

/// Merging of optional spans: a missing span gives way to the other one.
pub open spec fn opt_span_merge(a: Option<Span>, b: Option<Span>) -> Option<Span> {
    match a {
        None => b,
        Some(a) => match b {
            None => Some(a),
            Some(b) => Some(span_merge(a, b)),
        },
    }
}

impl Span {
    /// Merges two spans into one that covers both. The stream name is the one
    /// of `self`.
    pub fn merge(self, other: &Self) -> (r: Self)
        ensures
            r == span_merge(self, *other),
    {
        let mut s = self;
        if other.start.is_before(&s.start) {
            s.start = other.start;
        }
        if s.end.is_before(&other.end) {
            s.end = other.end;
        }
        s
    }

    /// The span from the earliest start to the latest end of a non-empty list
    /// of spans. The stream name is the one of the first span.
    pub fn merge_all(spans: &[Span]) -> (r: Span)
        requires
            spans@.len() > 0,
        ensures
            r == merge_seq(spans@, spans@.len() as int),
    {
        let mut acc = spans[0].clone();
        let mut i: usize = 1;
        while i < spans.len()
            invariant
                1 <= i <= spans@.len(),
                acc == merge_seq(spans@, i as int),
            decreases spans@.len() - i,
        {
            acc = acc.merge(&spans[i]);
            i = i + 1;
        }
        acc
    }
}

/// The merge of the first `n` spans of `spans` (for `n >= 1`).
pub open spec fn merge_seq(spans: Seq<Span>, n: int) -> Span
    decreases n,
{
    if n <= 1 {
        spans[0]
    } else {
        span_merge(merge_seq(spans, n - 1), spans[n - 1])
    }
}

/// Merging optional spans, where a missing span is no constraint.
pub trait MergeSpans: Sized {
    spec fn spec_merge_spans(self, other: Self) -> Self;

    fn merge(self, other: Self) -> (r: Self)
        ensures
            r == self.spec_merge_spans(other),
    ;
}

impl MergeSpans for Option<Span> {
    open spec fn spec_merge_spans(self, other: Self) -> Self {
        opt_span_merge(self, other)
    }

    fn merge(self, other: Self) -> (r: Self) {
        match self {
            None => other,
            Some(s) => match other {
                None => Some(s),
                Some(o) => Some(s.merge(&o)),
            },
        }
    }
}

/// A source that consists of a single region in a single stream.
#[derive(Debug, PartialEq, Eq)]
pub struct Continuous {
    /// The stream this source refers to
    pub stream: String,
    /// The position in the stream of this source's first character
    pub start: Position,
    /// The position in the stream of this source's last character
    pub end: Position,
}

/// A location in the source code, possibly absent.
#[derive(Debug, PartialEq, Eq)]
pub enum Source {
    /// Not a source: stands in where a source would be expected but none is
    /// available, as in unit tests.
    Null,
    /// A source that consists of a single region in a single stream
    Continuous(Continuous),
}

impl Continuous {
    pub fn into_source(self) -> (r: Source)
        ensures
            r == Source::Continuous(self),
    {
        Source::Continuous(self)
    }
}

/// The region covering two continuous sources; it keeps the stream of `a`.
pub open spec fn continuous_merge(a: Continuous, b: Continuous) -> Continuous {
    Continuous { stream: a.stream, start: pos_min(a.start, b.start), end: pos_max(a.end, b.end) }
}

/// Merging of optional sources: a missing or null source gives way to the other one.
pub open spec fn source_merge(a: Option<Source>, b: Option<Source>) -> Option<Source> {
    match a {
        None | Some(Source::Null) => b,
        Some(Source::Continuous(a)) => match b {
            None | Some(Source::Null) => Some(Source::Continuous(a)),
            Some(Source::Continuous(b)) => Some(Source::Continuous(continuous_merge(a, b))),
        },
    }
}

/// Merging of optional sources.
pub trait Merge: Sized {
    spec fn spec_merge(self, other: Self) -> Self;

    fn merge(self, other: Self) -> (r: Self)
        ensures
            r == self.spec_merge(other),
    ;
}

impl Merge for Option<Source> {
    open spec fn spec_merge(self, other: Self) -> Self {
        source_merge(self, other)
    }

    fn merge(self, other: Self) -> (r: Self) {
        match self {
            None => other,
            Some(Source::Null) => other,
            Some(Source::Continuous(mut a)) => match other {
                None => Some(Source::Continuous(a)),
                Some(Source::Null) => Some(Source::Continuous(a)),
                Some(Source::Continuous(b)) => {
                    if b.start.is_before(&a.start) {
                        a.start = b.start;
                    }
                    if a.end.is_before(&b.end) {
                        a.end = b.end;
                    }
                    Some(Source::Continuous(a))
                },
            },
        }
    }
}

/// Merging is commutative on the covered region, idempotent, and associative:
/// the merged span runs from the earlier start to the later end, whatever the
/// order in which spans are merged.
pub proof fn law_span_merge(a: Span, b: Span, c: Span)
    ensures
        span_merge(a, b).start == span_merge(b, a).start,
        span_merge(a, b).end == span_merge(b, a).end,
        span_merge(a, a) == a,
        span_merge(span_merge(a, b), c) == span_merge(a, span_merge(b, c)),
        !pos_lt(a.start, span_merge(a, b).start),
        !pos_lt(b.start, span_merge(a, b).start),
        !pos_lt(span_merge(a, b).end, a.end),
        !pos_lt(span_merge(a, b).end, b.end),
{
}

/// Merging spans gives the earliest of their starts and the latest of their
/// ends, and the stream name of the first span.
pub proof fn law_merge_all_bounds(spans: Seq<Span>, n: int)
    requires
        1 <= n <= spans.len(),
    ensures
        merge_seq(spans, n).stream_name == spans[0].stream_name,
        forall|i: int| 0 <= i < n ==> !pos_lt(#[trigger] spans[i].start, merge_seq(spans, n).start)
            && !pos_lt(merge_seq(spans, n).end, spans[i].end),
        exists|i: int| 0 <= i < n && #[trigger] spans[i].start == merge_seq(spans, n).start,
        exists|i: int| 0 <= i < n && #[trigger] spans[i].end == merge_seq(spans, n).end,
    decreases n,
{
    if n > 1 {
        law_merge_all_bounds(spans, n - 1);
        let m = merge_seq(spans, n - 1);
        let i0 = choose|i: int| 0 <= i < n - 1 && #[trigger] spans[i].start == m.start;
        let i1 = choose|i: int| 0 <= i < n - 1 && #[trigger] spans[i].end == m.end;
        if pos_lt(spans[n - 1].start, m.start) {
            assert(spans[n - 1].start == merge_seq(spans, n).start);
        } else {
            assert(spans[i0].start == merge_seq(spans, n).start);
        }
        if pos_lt(m.end, spans[n - 1].end) {
            assert(spans[n - 1].end == merge_seq(spans, n).end);
        } else {
            assert(spans[i1].end == merge_seq(spans, n).end);
        }
    } else {
        assert(spans[0].start == merge_seq(spans, n).start);
        assert(spans[0].end == merge_seq(spans, n).end);
    }
}

/// A missing span is the identity of merging.
pub proof fn law_missing_span_gives_way(a: Option<Span>)
    ensures
        opt_span_merge(None, a) == a,
        opt_span_merge(a, None) == a,
{
}

} // verus!
