use first_follow::grammar::{build_grammar, BuildError};
use first_follow::parser::{parse, Child, Kind, Parser, Tree};
use first_follow::span::{Location, Span};
use first_follow::token::{self, Token};

#[test]
fn tree_of_two_rules() {
    let tree = parse("A = b\nC = 'd' | e*").unwrap();
    assert_eq!(tree.kind, Kind::Grammar);
    assert_eq!(tree.children.len(), 2);
    match &tree.children[1] {
        Child::Tree(rule) => {
            assert_eq!(rule.kind, Kind::Rule);
            match &rule.children[1] {
                Child::Tree(branch) => {
                    assert_eq!(branch.kind, Kind::Branch);
                    assert_eq!(branch.children.len(), 2);
                }
                Child::Token(_) => panic!("expected a branch node"),
            }
        }
        Child::Token(_) => panic!("expected a rule node"),
    }
}

#[test]
fn parser_peeks_two_tokens() {
    let mut parser = Parser::new("A = b");
    assert_eq!(parser.peek(), token::Kind::Ident);
    assert_eq!(parser.peek_array(), [token::Kind::Ident, token::Kind::Equal]);
    parser.parse().unwrap();
    let tree = parser.tree();
    assert_eq!(tree.kind, Kind::Grammar);
}

#[test]
fn missing_equal_is_a_syntax_error() {
    let err = parse("A 'x'").unwrap_err();
    assert_eq!(err.expected, Some(token::Kind::Equal));
    assert_eq!(err.found, Token::new(Span::new(2, 5), token::Kind::Literal));
    assert_eq!(err.location, Location { line: 1, column: 3 });
}

#[test]
fn end_of_input_in_expression_is_a_syntax_error() {
    let err = parse("A = b\nB =").unwrap_err();
    assert_eq!(err.expected, None);
    assert_eq!(err.found.kind, token::Kind::Eof);
    assert_eq!(err.location, Location { line: 2, column: 3 });
}

#[test]
fn unclosed_group_is_a_syntax_error() {
    let err = parse("A = (b c").unwrap_err();
    assert_eq!(err.expected, Some(token::Kind::Paren(token::Paren::Close)));
    assert_eq!(err.found.kind, token::Kind::Eof);
}

#[test]
fn error_token_is_rejected() {
    let err = parse("A = b # c").unwrap_err();
    assert_eq!(err.found.kind, token::Kind::Error);
}

#[test]
fn empty_source_is_an_empty_grammar() {
    let tree = parse("  // nothing\n").unwrap();
    assert_eq!(tree.kind, Kind::Grammar);
    assert!(tree.children.is_empty());
}

#[test]
fn builder_rejects_a_node_that_is_not_a_rule() {
    let tree = Tree {
        kind: Kind::Grammar,
        children: vec![Child::Token(Token::new(Span::new(0, 1), token::Kind::Ident))],
    };
    assert!(matches!(build_grammar("a", tree), Err(BuildError::NotARule)));
}

#[test]
fn builder_rejects_a_span_outside_the_source() {
    let name = Token::new(Span::new(0, 1), token::Kind::Ident);
    let body = Token::new(Span::new(3, 40), token::Kind::Ident);
    let rule = Tree {
        kind: Kind::Rule,
        children: vec![Child::Token(name), Child::Token(body)],
    };
    let tree = Tree { kind: Kind::Grammar, children: vec![Child::Tree(rule)] };
    assert!(matches!(build_grammar("A = b", tree), Err(BuildError::BadToken(t)) if t == body));
}

#[test]
fn builder_rejects_an_empty_branch() {
    let name = Token::new(Span::new(0, 1), token::Kind::Ident);
    let branch = Tree { kind: Kind::Branch, children: Vec::new() };
    let rule = Tree {
        kind: Kind::Rule,
        children: vec![Child::Token(name), Child::Tree(branch)],
    };
    let tree = Tree { kind: Kind::Grammar, children: vec![Child::Tree(rule)] };
    assert!(matches!(build_grammar("A", tree), Err(BuildError::BadNode(Kind::Branch))));
}

#[test]
fn tree_groups_alternatives_as_sequences() {
    let tree = parse("A = B C | d").unwrap();
    let rule = match &tree.children[0] {
        Child::Tree(rule) => rule,
        Child::Token(_) => panic!("expected a rule node"),
    };
    assert_eq!(rule.kind, Kind::Rule);
    let branch = match &rule.children[1] {
        Child::Tree(branch) => branch,
        Child::Token(_) => panic!("expected a branch node"),
    };
    assert_eq!(branch.kind, Kind::Branch);
    let sizes: Vec<(Kind, usize)> = branch
        .children
        .iter()
        .map(|c| match c {
            Child::Tree(t) => (t.kind.clone(), t.children.len()),
            Child::Token(_) => panic!("expected sequence nodes"),
        })
        .collect();
    assert_eq!(sizes, vec![(Kind::Sequence, 2), (Kind::Sequence, 1)]);
}
