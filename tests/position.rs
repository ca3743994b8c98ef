use lazy_buffer::{Position, Span};

#[test]
fn plain_characters_take_one_column_each() {
    let mut p = Position::new(3, 4);
    for c in "hello".chars() {
        p = p.next(c);
    }
    assert_eq!(p, Position::new(3, 9));
}

#[test]
fn newline_moves_to_next_line_start() {
    assert_eq!(Position::new(0, 0).next('\n'), Position::new(1, 0));
    assert_eq!(Position::new(4, 17).next('\n'), Position::new(5, 0));
}

#[test]
fn carriage_return_resets_column() {
    assert_eq!(Position::new(2, 9).next('\r'), Position::new(2, 0));
}

#[test]
fn tab_moves_to_next_stop() {
    assert_eq!(Position::new(0, 0).next('\t').column, 8);
    assert_eq!(Position::new(0, 5).next('\t').column, 8);
    assert_eq!(Position::new(0, 8).next('\t').column, 16);
    assert_eq!(Position::new(1, 15).next('\t'), Position::new(1, 16));
}

#[test]
fn other_control_characters_have_no_width() {
    let p = Position::new(2, 3);
    for c in ['\u{0}', '\u{7}', '\u{1b}', '\u{7f}', '\u{85}', '\u{9f}'] {
        assert_eq!(p.next(c), p);
        assert_eq!(p.next(c).next(c), p);
    }
    assert_eq!(p.next('\u{a0}'), Position::new(2, 4));
}

#[test]
fn end_is_greatest() {
    let end = Position::end();
    assert_eq!(end, Position::new(usize::MAX, usize::MAX));
    assert!(Position::new(0, 0) <= end);
    assert!(Position::new(usize::MAX, 3) <= end);
    assert!(Position::new(7, usize::MAX) <= end);
    assert!(end <= end);
    assert!(!(end < end));
}

#[test]
fn positions_order_line_first() {
    assert!(Position::new(0, 9) < Position::new(1, 0));
    assert!(Position::new(1, 2) < Position::new(1, 3));
    assert!(Position::new(2, 0) > Position::new(1, 50));
    assert!(Position::new(1, 2).before(&Position::new(1, 3)));
    assert!(!Position::new(1, 3).before(&Position::new(1, 3)));
}

#[test]
fn saturates_at_the_largest_position() {
    let end = Position::end();
    assert_eq!(end.next('a'), end);
    assert_eq!(end.next('\t'), end);
    assert_eq!(end.next('\n'), Position::new(usize::MAX, 0));
    assert_eq!(Position::new(0, usize::MAX - 3).next('\t').column, usize::MAX);
}

#[test]
fn moves_of_position() {
    let p = Position::new(3, 5);
    assert_eq!(p.next_column(), Position::new(3, 6));
    assert_eq!(p.reset_column(), Position::new(3, 0));
    assert_eq!(p.next_line(), Position::new(4, 0));
}

#[test]
fn span_push_moves_end_only() {
    let mut span = Span::at(Position::new(1, 2));
    span.push('a');
    span.push('\t');
    assert_eq!(span.start(), Position::new(1, 2));
    assert_eq!(span.end(), Position::new(1, 8));
    span.push('\n');
    assert_eq!(span.end(), Position::new(2, 0));
    assert_eq!(Span::new(Position::new(0, 1), Position::new(0, 4)).end, Position::new(0, 4));
}

#[test]
fn display_counts_from_one() {
    assert_eq!(Position::new(0, 0).to_string(), "line 1 column 1");
    assert_eq!(Position::new(41, 9).to_string(), "line 42 column 10");
    assert_eq!(Position::end().to_string(), "line [end] column [end]");
    assert_eq!(Position::new(usize::MAX, 4).to_string(), "line [end] column 5");
    assert_eq!(Position::new(2, usize::MAX).to_string(), "line 3 column [end]");
}

#[test]
fn short_form_counts_from_one() {
    assert_eq!(Position::new(0, 0).to_short_string(), "1:1");
    assert_eq!(Position::new(99, 1234).to_short_string(), "100:1235");
    assert_eq!(Position::end().to_short_string(), "[end]:[end]");
    assert_eq!(Position::new(usize::MAX, 0).to_short_string(), "[end]:1");
    assert_eq!(Position::new(6, usize::MAX).to_short_string(), "7:[end]");
}
