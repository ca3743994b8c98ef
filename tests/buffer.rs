use lazy_buffer::{Buffer, CharSource, Position, Span, TextSource};

#[derive(Debug, PartialEq)]
struct Broken(u32);

fn source(text: &str, failure: Option<Broken>) -> TextSource<Broken> {
    TextSource::new(text.chars().collect(), failure)
}

fn buffer(text: &str) -> Buffer<TextSource<Broken>> {
    Buffer::new(source(text, None), Position::new(0, 0))
}

#[test]
fn at_gives_characters_by_position() {
    let mut b = buffer("ab\ncd");
    assert_eq!(b.at(Position::new(0, 0)), Some(Ok('a')));
    assert_eq!(b.at(Position::new(0, 1)), Some(Ok('b')));
    assert_eq!(b.at(Position::new(1, 0)), Some(Ok('c')));
    assert_eq!(b.at(Position::new(0, 2)), Some(Ok('\n')));
    assert_eq!(b.at(Position::new(2, 0)), None);
}

#[test]
fn at_before_start_reads_nothing() {
    let mut b = Buffer::new(source("xy\nz", None), Position::new(1, 4));
    assert_eq!(b.at(Position::new(0, 9)), None);
    assert_eq!(b.at(Position::new(1, 3)), None);
    let span = b.span();
    assert_eq!(span.start, Position::new(1, 4));
    assert_eq!(span.end, Position::new(1, 4));
    assert_eq!(b.at(Position::new(1, 4)), Some(Ok('x')));
    assert_eq!(b.at(Position::new(1, 5)), Some(Ok('y')));
    assert_eq!(b.at(Position::new(2, 0)), Some(Ok('z')));
}

#[test]
fn error_is_given_once() {
    let mut b = Buffer::new(source("ab", Some(Broken(7))), Position::new(0, 0));
    assert_eq!(b.at(Position::new(0, 1)), Some(Ok('b')));
    assert_eq!(b.at(Position::new(3, 0)), Some(Err(Broken(7))));
    assert_eq!(b.at(Position::new(3, 0)), None);
    assert_eq!(b.at(Position::new(0, 0)), Some(Ok('a')));
}

#[test]
fn unreachable_columns_are_not_available() {
    let mut b = buffer("a\tb\nxyz");
    assert_eq!(b.at(Position::new(0, 1)), Some(Ok('\t')));
    assert_eq!(b.at(Position::new(0, 4)), None);
    assert_eq!(b.at(Position::new(0, 8)), Some(Ok('b')));
    assert_eq!(b.at(Position::new(0, 50)), None);
    assert_eq!(b.at(Position::new(1, 2)), Some(Ok('z')));
    assert_eq!(b.at(Position::new(1, 3)), None);
}

#[test]
fn index_at_gives_store_indices() {
    let mut b = buffer("ab\ncd\n");
    assert_eq!(b.index_at(Position::new(1, 1)), Some(Ok(4)));
    assert_eq!(b.index_at(Position::new(0, 0)), Some(Ok(0)));
    assert_eq!(b.index_at(Position::new(1, 2)), Some(Ok(5)));
    assert_eq!(b.index_at(Position::new(2, 0)), None);
}

#[test]
fn buffer_reads_whole_lines_lazily() {
    let mut b = buffer("ab\ncd\nef");
    assert_eq!(b.span().end, Position::new(0, 0));
    assert_eq!(b.at(Position::new(0, 1)), Some(Ok('b')));
    assert_eq!(b.span().end, Position::new(1, 0));
    assert_eq!(b.at(Position::new(2, 1)), Some(Ok('f')));
    assert_eq!(b.span().end, Position::new(2, 2));
}

#[test]
fn zero_width_characters_share_a_position() {
    let mut b = buffer("a\u{1}b");
    assert_eq!(b.at(Position::new(0, 1)), Some(Ok('\u{1}')));
    assert_eq!(b.at(Position::new(0, 2)), None);
}

#[test]
fn iter_gives_everything() {
    let mut b = buffer("ab\ncd");
    let it = b.iter();
    assert_eq!(it.into_string(&mut b), Ok("ab\ncd".to_string()));
}

#[test]
fn iter_next_steps_through_characters() {
    let mut b = buffer("x\ny");
    let mut it = b.iter();
    assert_eq!(it.next(&mut b), Some(Ok('x')));
    assert_eq!(it.next(&mut b), Some(Ok('\n')));
    assert_eq!(it.next(&mut b), Some(Ok('y')));
    assert_eq!(it.next(&mut b), None);
    assert_eq!(it.next(&mut b), None);
}

#[test]
fn iter_from_clamps_to_start() {
    let mut b = Buffer::new(source("abc\ndef", None), Position::new(2, 0));
    let it = b.iter_from(Position::new(0, 7));
    assert_eq!(it.into_string(&mut b), Ok("abc\ndef".to_string()));
    let it = b.iter_from(Position::new(3, 1));
    assert_eq!(it.into_string(&mut b), Ok("ef".to_string()));
}

#[test]
fn iter_span_gives_characters_in_span() {
    let mut b = buffer("hello\nworld\n");
    let it = b.iter_span(Span::new(Position::new(0, 3), Position::new(1, 2)));
    assert_eq!(it.into_string(&mut b), Ok("lo\nwo".to_string()));
    let it = b.iter_span(Span::new(Position::new(1, 1), Position::new(1, 1)));
    assert_eq!(it.into_string(&mut b), Ok(String::new()));
    assert_eq!(
        b.string_in(Span::new(Position::new(1, 0), Position::end())),
        Ok("world\n".to_string())
    );
}

#[test]
fn iteration_reports_error_once() {
    let mut b = Buffer::new(source("ab", Some(Broken(3))), Position::new(0, 0));
    let mut it = b.iter();
    assert_eq!(it.next(&mut b), Some(Ok('a')));
    assert_eq!(it.next(&mut b), Some(Ok('b')));
    assert_eq!(it.next(&mut b), Some(Err(Broken(3))));
    assert_eq!(it.next(&mut b), None);
    let it = b.iter();
    assert_eq!(it.into_string(&mut b), Ok("ab".to_string()));
}

#[test]
fn into_string_stops_at_error() {
    let mut b = Buffer::new(source("ab\nc", Some(Broken(1))), Position::new(0, 0));
    let it = b.iter_from(Position::new(1, 0));
    assert_eq!(it.into_string(&mut b), Err(Broken(1)));
}

#[test]
fn iterator_starting_past_failure_gives_the_error() {
    let mut b = Buffer::new(source("a", Some(Broken(9))), Position::new(0, 0));
    let mut it = b.iter_from(Position::new(4, 0));
    assert_eq!(it.next(&mut b), Some(Err(Broken(9))));
    assert_eq!(it.next(&mut b), None);
}

#[test]
fn span_round_trip() {
    let mut b = buffer("one\ntwo\nthree");
    assert_eq!(b.at(Position::new(1, 1)), Some(Ok('w')));
    let span = b.span();
    assert_eq!(span.end, Position::new(2, 0));
    let it = b.iter_span(span);
    assert_eq!(it.into_string(&mut b), Ok("one\ntwo\n".to_string()));
}

#[test]
fn round_trip_from_inner_start() {
    let mut b = Buffer::new(source("ab\tc\nd", None), Position::new(5, 3));
    assert_eq!(b.at(Position::new(6, 0)), Some(Ok('d')));
    let span = b.span();
    assert_eq!(span.start, Position::new(5, 3));
    assert_eq!(b.string_in(span), Ok("ab\tc\nd".to_string()));
}

#[test]
fn empty_source() {
    let mut b = buffer("");
    assert_eq!(b.at(Position::new(0, 0)), None);
    let it = b.iter();
    assert_eq!(it.into_string(&mut b), Ok(String::new()));
}

#[test]
fn text_source_gives_characters_then_error() {
    let mut s = source("hi", Some(Broken(2)));
    assert_eq!(s.pull(), Some(Ok('h')));
    assert_eq!(s.pull(), Some(Ok('i')));
    assert_eq!(s.pull(), Some(Err(Broken(2))));
    assert_eq!(s.pull(), None);
}

#[test]
fn draining_reads_everything_once() {
    let mut b = buffer("ab\ncd");
    let it = b.iter();
    assert_eq!(it.into_string(&mut b), Ok("ab\ncd".to_string()));
    assert_eq!(b.span().end, Position::new(1, 2));
    let span = b.span();
    assert_eq!(b.string_in(span), Ok("ab\ncd".to_string()));
}

#[test]
fn span_iteration_reads_only_needed_lines() {
    let mut b = buffer("ab\ncd\nef");
    let mut sp = Span::at(Position::new(0, 1));
    sp.push('b');
    sp.push('\n');
    sp.push('c');
    assert_eq!(sp.end, Position::new(1, 1));
    let it = b.iter_span(sp);
    assert_eq!(it.into_string(&mut b), Ok("b\nc".to_string()));
    assert_eq!(b.span().end, Position::new(2, 0));
}

#[test]
fn error_leaves_whole_text_buffered() {
    let mut b = Buffer::new(source("ab\ncd", Some(Broken(5))), Position::new(0, 0));
    assert_eq!(b.at(Position::new(4, 0)), Some(Err(Broken(5))));
    assert_eq!(b.span().end, Position::new(1, 2));
    let mut it = b.iter_from(Position::new(1, 0));
    assert_eq!(it.next(&mut b), Some(Ok('c')));
    assert_eq!(it.next(&mut b), Some(Ok('d')));
    assert_eq!(it.next(&mut b), None);
}

#[test]
fn at_reads_up_to_the_line_of_the_position() {
    let mut b = buffer("a\nb\nc\nd\n");
    assert_eq!(b.at(Position::new(1, 0)), Some(Ok('b')));
    assert_eq!(b.span().end, Position::new(2, 0));
    assert_eq!(b.at(Position::new(0, 0)), Some(Ok('a')));
    assert_eq!(b.span().end, Position::new(2, 0));
    assert_eq!(b.at(Position::new(2, 5)), None);
    assert_eq!(b.span().end, Position::new(3, 0));
}

#[test]
fn span_past_the_text_gives_nothing_or_the_error() {
    let mut b = buffer("ab\ncd");
    let it = b.iter_span(Span::new(Position::new(3, 0), Position::new(4, 0)));
    assert_eq!(it.into_string(&mut b), Ok(String::new()));
    let mut b = Buffer::new(source("ab", Some(Broken(4))), Position::new(0, 0));
    let it = b.iter_span(Span::new(Position::new(1, 0), Position::new(2, 0)));
    assert_eq!(it.into_string(&mut b), Err(Broken(4)));
    assert_eq!(b.span().end, Position::new(0, 2));
    assert_eq!(b.at(Position::new(0, 1)), Some(Ok('b')));
}
