use first_follow::lexer::{tokenize, Lexer};
use first_follow::span::Span;
use first_follow::token::{Kind, Paren, Token};

#[test]
fn lexer_test_ring() {
    let source = "(|)a";
    let mut lexer = Lexer::<2>::new(source);

    assert_eq!(lexer.peek_array(), [Kind::Paren(Paren::Open), Kind::Pipe]);
    lexer.advance();
    assert_eq!(lexer.peek_array(), [Kind::Pipe, Kind::Paren(Paren::Close)]);
    lexer.advance();
    assert_eq!(lexer.peek_array(), [Kind::Paren(Paren::Close), Kind::Ident]);
    lexer.advance();
    assert_eq!(lexer.peek_array(), [Kind::Ident, Kind::Eof]);
    lexer.advance();
    assert_eq!(lexer.peek_array(), [Kind::Eof, Kind::Eof]);
}

#[test]
fn lookahead_window_of_three_pads_with_eof() {
    let mut lexer = Lexer::<3>::new("a = 'b'");
    assert_eq!(lexer.peek_array(), [Kind::Ident, Kind::Equal, Kind::Literal]);
    lexer.advance();
    assert_eq!(lexer.peek_array(), [Kind::Equal, Kind::Literal, Kind::Eof]);
    lexer.advance();
    lexer.advance();
    assert_eq!(lexer.peek_array(), [Kind::Eof, Kind::Eof, Kind::Eof]);
    let eof = lexer.peek_token();
    assert_eq!(eof.kind, Kind::Eof);
    assert_eq!(eof.span, Span::new(4, 7));
}

#[test]
fn tokenize_skips_whitespace_and_comments() {
    let tokens = tokenize("rule_1 = 'x' // trailing\n  | ( y )* ?:");
    let kinds: Vec<Kind> = tokens.iter().map(|t| t.kind).collect();
    assert_eq!(
        kinds,
        vec![
            Kind::Ident,
            Kind::Equal,
            Kind::Literal,
            Kind::Pipe,
            Kind::Paren(Paren::Open),
            Kind::Ident,
            Kind::Paren(Paren::Close),
            Kind::Star,
            Kind::Question,
            Kind::Colon,
        ]
    );
    assert_eq!(tokens[0], Token::new(Span::new(0, 6), Kind::Ident));
    assert_eq!(tokens[2].span, Span::new(9, 12));
}

#[test]
fn tokenize_empty_and_comment_only() {
    assert!(tokenize("").is_empty());
    assert!(tokenize("   // nothing here").is_empty());
}

#[test]
fn stray_bytes_become_error_tokens() {
    let tokens = tokenize("a # b");
    assert_eq!(tokens.len(), 3);
    assert_eq!(tokens[1], Token::new(Span::new(2, 3), Kind::Error));
    let tokens = tokenize("\u{e9}x");
    assert_eq!(tokens[0], Token::new(Span::new(0, 2), Kind::Error));
    assert_eq!(tokens[1], Token::new(Span::new(2, 3), Kind::Ident));
    let tokens = tokenize("a / b");
    assert_eq!(tokens[1].kind, Kind::Error);
}

#[test]
fn unterminated_literal_is_one_error_token() {
    let tokens = tokenize("x 'abc");
    assert_eq!(tokens.len(), 2);
    assert_eq!(tokens[1], Token::new(Span::new(2, 6), Kind::Error));
}

#[test]
fn next_token_hands_out_and_moves_on() {
    let mut lexer = Lexer::<1>::new("a b");
    assert_eq!(lexer.peek_kind(), Kind::Ident);
    let first = lexer.next_token();
    assert_eq!(first.span, Span::new(0, 1));
    let second = lexer.next_token();
    assert_eq!(second.span, Span::new(2, 3));
    assert_eq!(lexer.next_token().kind, Kind::Eof);
    assert_eq!(lexer.source(), "a b");
}
