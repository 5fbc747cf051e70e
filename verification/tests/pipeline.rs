use kari::parser::{Expression, ExpressionKind, Parser};
use kari::pipeline::Pipeline;
use kari::reader::{self, Reader};
use kari::recorder::Recorder;
use kari::source::{MergeSpans, Position, Span};
use kari::tokenizer::{NoFloats, TokenBuilder, TokenKind, Tokenizer};
use kari::reader::Char;
use kari::parser;

fn pos(line: usize, column: usize, index: usize) -> Position {
    Position { line, column, index }
}

fn tokens(text: &str) -> Vec<TokenKind> {
    let mut t = Tokenizer::new(Reader::new(text.as_bytes().to_vec()), String::from("t"));
    let mut source = String::new();
    let mut out = Vec::new();
    while let Ok(token) = t.next_token(&NoFloats, &mut source) {
        out.push(token.kind);
    }
    out
}

fn word(k: &TokenKind) -> String {
    match k {
        TokenKind::Word(w) => format!("word {}", w),
        TokenKind::Symbol(s) => format!("symbol {}", s),
        TokenKind::String(s) => format!("string {}", s),
        TokenKind::Number(n) => format!("number {}", n),
        TokenKind::Bool(b) => format!("bool {}", b),
        TokenKind::Float(f) => format!("float {}", f.text),
        TokenKind::ListOpen => String::from("["),
        TokenKind::ListClose => String::from("]"),
    }
}

#[test]
fn reader_decodes_utf8_and_tracks_positions() {
    let mut r = Reader::new("aé\nb".as_bytes().to_vec());
    let a = r.next().unwrap();
    assert_eq!((a.c, a.pos), ('a', pos(0, 0, 0)));
    let e = r.next().unwrap();
    assert_eq!((e.c, e.pos), ('é', pos(0, 1, 1)));
    let n = r.next().unwrap();
    assert_eq!((n.c, n.pos), ('\n', pos(0, 2, 3)));
    let b = r.next().unwrap();
    assert_eq!((b.c, b.pos), ('b', pos(1, 0, 4)));
    assert_eq!(r.next().unwrap_err(), reader::Error::EndOfStream);
    assert_eq!(r.next().unwrap_err(), reader::Error::EndOfStream);
}

#[test]
fn reader_refuses_bytes_that_are_no_utf8() {
    let mut r = Reader::new(vec![0xff, 0xfe, 0xfd, 0xfc, b'a']);
    assert_eq!(r.next().unwrap_err(), reader::Error::Utf8 { index: 0 });
    assert_eq!(r.next().unwrap_err(), reader::Error::EndOfStream);
}

#[test]
fn reader_reports_the_end_inside_a_character() {
    let mut r = Reader::new(vec![0xc3]);
    assert_eq!(r.next().unwrap_err(), reader::Error::EndOfStream);
}

#[test]
fn char_whitespace() {
    let c = Char { c: ' ', pos: pos(0, 0, 0) };
    assert!(c.is_whitespace());
    let c = Char { c: 'x', pos: pos(0, 0, 0) };
    assert!(!c.is_whitespace());
}

#[test]
fn tokenizer_recognizes_every_kind() {
    let kinds = tokens("[ a :b \"c d\" 12 true +3 ] # note\nx ");
    let shown: Vec<String> = kinds.iter().map(word).collect();
    assert_eq!(
        shown,
        vec!["[", "word a", "symbol b", "string c d", "number 12", "bool true", "number 3", "]", "word x"]
    );
}

#[test]
fn tokenizer_words_that_overflow_are_words() {
    let shown: Vec<String> = tokens("4294967296 1.5 ").iter().map(word).collect();
    assert_eq!(shown, vec!["word 4294967296", "word 1.5"]);
}

#[test]
fn tokenizer_records_the_source_and_spans() {
    let mut t = Tokenizer::new(Reader::new(b"  ab  ".to_vec()), String::from("s"));
    let mut source = String::new();
    let token = t.next_token(&NoFloats, &mut source).unwrap();
    assert_eq!(source, "  ab ");
    let span = token.span.unwrap();
    assert_eq!(span.stream_name, "s");
    assert_eq!(span.start, pos(0, 2, 2));
    assert_eq!(span.end, pos(0, 3, 3));
}

#[test]
fn token_builder_collects_characters() {
    let mut b = TokenBuilder::new(String::from("s"));
    b.process(Char { c: '"', pos: pos(0, 0, 0) });
    b.store(Char { c: 'x', pos: pos(0, 1, 1) });
    let t = b.into_string();
    assert!(matches!(t.kind, TokenKind::String(ref s) if s == "x"));
    let span = t.span.unwrap();
    assert_eq!((span.start, span.end), (pos(0, 0, 0), pos(0, 1, 1)));
}

#[test]
fn parse_word_classifies() {
    assert!(matches!(TokenKind::parse_word(String::from("false"), &NoFloats), TokenKind::Bool(false)));
    assert!(matches!(TokenKind::parse_word(String::from("+7"), &NoFloats), TokenKind::Number(7)));
    assert!(matches!(TokenKind::parse_word(String::from("x7"), &NoFloats), TokenKind::Word(_)));
}

fn parse_all(text: &str) -> (Vec<Expression>, parser::Error) {
    let mut p = Pipeline::new(String::from("p"), text.as_bytes().to_vec());
    let mut source = String::new();
    let mut out = Vec::new();
    loop {
        match p.parser.next_expression(&NoFloats, &mut source) {
            Ok(e) => out.push(e),
            Err(e) => return (out, e),
        }
    }
}

#[test]
fn parser_builds_nested_lists() {
    let (exprs, end) = parse_all("[ 1 [ a ] ] b ");
    assert!(matches!(end, parser::Error::EndOfStream));
    assert_eq!(exprs.len(), 2);
    match &exprs[0].kind {
        ExpressionKind::List(items) => {
            assert_eq!(items.len(), 2);
            assert!(matches!(items[0].kind, ExpressionKind::Number(1)));
            match &items[1].kind {
                ExpressionKind::List(inner) => assert!(matches!(&inner[0].kind, ExpressionKind::Word(w) if w == "a")),
                _ => panic!("expected a list"),
            }
        }
        _ => panic!("expected a list"),
    }
    let span = exprs[0].span.clone().unwrap();
    assert_eq!((span.start, span.end), (pos(0, 0, 0), pos(0, 10, 10)));
}

#[test]
fn parser_reports_unfinished_lists_as_the_end() {
    let (exprs, end) = parse_all("[ 1 ");
    assert!(exprs.is_empty());
    assert!(matches!(end, parser::Error::EndOfStream));
}

#[test]
fn parser_refuses_a_stray_list_close() {
    let (exprs, end) = parse_all("1 ] ");
    assert_eq!(exprs.len(), 1);
    assert!(matches!(end, parser::Error::UnexpectedToken(_)));
}

#[test]
fn parser_new_from_tokenizer() {
    let t = Tokenizer::new(Reader::new(b"x ".to_vec()), String::from("q"));
    let mut p = Parser::new(t);
    let mut source = String::new();
    let e = p.next_expression(&NoFloats, &mut source).unwrap();
    assert!(matches!(&e.kind, ExpressionKind::Word(w) if w == "x"));
}

#[test]
fn recorder_keeps_characters() {
    let mut r = Recorder::new(Reader::new(b"ab".to_vec()));
    assert_eq!(r.next().unwrap().c, 'a');
    assert_eq!(r.next().unwrap().c, 'b');
    assert!(r.next().is_err());
    let chars: Vec<char> = r.chars().iter().map(|c| c.c).collect();
    assert_eq!(chars, vec!['a', 'b']);
}

fn span(start: Position, end: Position) -> Span {
    Span { stream_name: String::from("s"), start, end }
}

#[test]
fn spans_merge_to_cover_both() {
    let a = span(pos(0, 2, 2), pos(0, 4, 4));
    let b = span(pos(0, 0, 0), pos(1, 1, 7));
    let m = a.clone().merge(&b);
    assert_eq!((m.start, m.end), (pos(0, 0, 0), pos(1, 1, 7)));
    let n = b.clone().merge(&a);
    assert_eq!((n.start, n.end), (m.start, m.end));
    let all = Span::merge_all(&[a.clone(), b.clone()]);
    assert_eq!((all.start, all.end), (m.start, m.end));
    assert_eq!(MergeSpans::merge(None, Some(a.clone())), Some(a.clone()));
    assert_eq!(MergeSpans::merge(Some(a.clone()), None), Some(a));
}

#[test]
fn a_word_that_ends_the_stream_is_a_token() {
    let mut t = Tokenizer::new(Reader::new(b"is_42?".to_vec()), String::from("s"));
    let mut source = String::new();
    let token = t.next_token(&NoFloats, &mut source).unwrap();
    match token.kind {
        TokenKind::Word(w) => assert_eq!(w, "is_42?"),
        other => panic!("expected a word, got {}", word(&other)),
    }
    let span = token.span.unwrap();
    assert_eq!(span.start, pos(0, 0, 0));
    assert_eq!(span.end, pos(0, 5, 5));
    assert!(matches!(
        t.next_token(&NoFloats, &mut source),
        Err(kari::tokenizer::Error::Reader(reader::Error::EndOfStream))
    ));
    assert_eq!(source, "is_42?");
}

#[test]
fn a_symbol_and_a_number_end_the_stream_as_tokens() {
    let shown: Vec<String> = tokens(":a 6 7").iter().map(word).collect();
    assert_eq!(shown, vec!["symbol a", "number 6", "number 7"]);
}

#[test]
fn an_unterminated_string_at_the_end_is_no_token() {
    let shown: Vec<String> = tokens("1 \"ab").iter().map(word).collect();
    assert_eq!(shown, vec!["number 1"]);
}

#[test]
fn whitespace_runs_may_be_replaced() {
    let a: Vec<String> = tokens("1 2 :x y ").iter().map(word).collect();
    let b: Vec<String> = tokens("1\n2\t \t:x\r\ny").iter().map(word).collect();
    assert_eq!(a, b);
    assert_eq!(a, vec!["number 1", "number 2", "symbol x", "word y"]);
}
