use first_follow::span::{Location, Span};

#[test]
fn location_counts_lines_and_columns() {
    let source = "ab\ncd\n\nx";
    assert_eq!(Span::new(0, 1).location(source), Location { line: 1, column: 1 });
    assert_eq!(Span::new(1, 2).location(source), Location { line: 1, column: 2 });
    assert_eq!(Span::new(4, 5).location(source), Location { line: 2, column: 2 });
    assert_eq!(Span::new(7, 8).location(source), Location { line: 4, column: 1 });
}

#[test]
fn location_past_the_end_is_after_the_last_byte() {
    assert_eq!(Span::new(50, 51).location("a\nb"), Location { line: 2, column: 2 });
}

#[test]
fn location_counts_characters_not_bytes() {
    assert_eq!(Span::new(3, 4).location("\u{e9}ax"), Location { line: 1, column: 3 });
}

#[test]
fn span_len_range_and_conversions() {
    let span = Span::new(3, 8);
    assert_eq!(span.len(), 5);
    assert_eq!(span.range(), 3..8);
    assert_eq!(Span::from(2..4), Span::new(2, 4));
    assert_eq!(Span::default(), Span::new(0, 0));
}
