use first_follow::grammar::{build_grammar, Expr, Grammar, GrammarError};
use first_follow::parser::parse;
use indexmap::{IndexMap, IndexSet};

fn grammar_of(source: &str) -> Grammar {
    let tree = parse(source).expect("the grammar parses");
    build_grammar(source, tree).expect("the grammar builds")
}

fn sorted(set: &IndexSet<String>) -> Vec<String> {
    let mut v: Vec<String> = set.iter().cloned().collect();
    v.sort();
    v
}

fn strings(items: &[&str]) -> Vec<String> {
    let mut v: Vec<String> = items.iter().map(|s| s.to_string()).collect();
    v.sort();
    v
}

fn rule(name: &str) -> Expr {
    Expr::Rule(name.to_string())
}

fn lit(text: &str) -> Expr {
    Expr::Literal(text.to_string())
}

#[test]
fn choice_of_sequences_shape() {
    let g = grammar_of("A = B C | d");
    let expected = Expr::Choice(vec![
        Expr::Sequence(vec![rule("B"), rule("C")]),
        Expr::Sequence(vec![rule("d")]),
    ]);
    assert_eq!(g.rules.get("A"), Some(&expected));
}

#[test]
fn literals_lose_their_quotes_and_operators_nest() {
    let g = grammar_of("A = 'x' (b | 'c')* d?");
    let expected = Expr::Sequence(vec![
        lit("x"),
        Expr::Repeat(Box::new(Expr::Choice(vec![
            Expr::Sequence(vec![rule("b")]),
            Expr::Sequence(vec![lit("c")]),
        ]))),
        Expr::Optional(Box::new(rule("d"))),
    ]);
    assert_eq!(g.rules.get("A"), Some(&expected));
}

#[test]
fn single_parenthesised_alternative_is_not_a_choice() {
    let g = grammar_of("A = (b c)?");
    let expected = Expr::Sequence(vec![Expr::Optional(Box::new(Expr::Sequence(vec![
        rule("b"),
        rule("c"),
    ])))]);
    assert_eq!(g.rules.get("A"), Some(&expected));
}

#[test]
fn non_terminals_in_declaration_order() {
    let g = grammar_of("Z = a\nA = b\nM = c");
    let names: Vec<String> = g.non_terminals().iter().cloned().collect();
    assert_eq!(names, vec!["Z".to_string(), "A".to_string(), "M".to_string()]);
}

#[test]
fn redeclared_rule_keeps_its_place_and_takes_the_new_body() {
    let g = grammar_of("A = 'x'\nB = 'y'\nA = 'z'");
    let names: Vec<String> = g.non_terminals().iter().cloned().collect();
    assert_eq!(names, vec!["A".to_string(), "B".to_string()]);
    assert_eq!(g.rules.get("A"), Some(&Expr::Sequence(vec![lit("z")])));
}

#[test]
fn first_of_literal_only_rule() {
    let g = grammar_of("A = 'x'");
    assert_eq!(sorted(&g.first_set("A").unwrap()), strings(&["x"]));
}

#[test]
fn first_with_optional_prefix() {
    let g = grammar_of("A = b? 'x'\nb = 'y'");
    assert_eq!(sorted(&g.first_set("A").unwrap()), strings(&["y", "x"]));
}

#[test]
fn first_of_nullable_sequence_has_marker_at_sequence_level() {
    let g = grammar_of("A = b?\nb = 'y'");
    assert_eq!(sorted(&g.first_set("A").unwrap()), strings(&["y", "\u{3b5}"]));
}

#[test]
fn first_of_optional_expression_has_no_marker() {
    let g = grammar_of("A = b?\nb = 'y'");
    let optional = Expr::Optional(Box::new(rule("b")));
    let mut productions = IndexSet::new();
    let set = g.first_set_impl(&optional, &mut productions).unwrap();
    assert_eq!(sorted(&set), strings(&["y"]));
    assert!(productions.contains("b"));
}

#[test]
fn first_of_choice_unions_branches() {
    let g = grammar_of("A = 'p' | b | c\nb = 'q'\nc = 'r' 's'");
    assert_eq!(sorted(&g.first_set("A").unwrap()), strings(&["p", "q", "r"]));
}

#[test]
fn first_passes_over_nullable_alias() {
    let g = grammar_of("A = B 'x'\nB = A?");
    assert_eq!(sorted(&g.first_set("A").unwrap()), strings(&["x", "\u{3b5}"]));
}

#[test]
fn follow_reaches_through_nullable_tail() {
    let g = grammar_of("S = Z 'end'\nZ = A b?\nb = 'y'");
    let follow_a = sorted(&g.follow_set("A", false).unwrap());
    let follow_z = sorted(&g.follow_set("Z", false).unwrap());
    assert_eq!(follow_z, strings(&["end"]));
    assert!(follow_a.contains(&"y".to_string()));
    for t in &follow_z {
        assert!(follow_a.contains(t));
    }
    assert_eq!(follow_a, strings(&["y", "end"]));
}

#[test]
fn follow_of_unreferenced_rule_is_empty() {
    let g = grammar_of("Z = A b?\nb = 'y'");
    assert!(g.follow_set("Z", false).unwrap().is_empty());
    assert_eq!(sorted(&g.follow_set("A", false).unwrap()), strings(&["y"]));
}

#[test]
fn follow_drops_the_empty_marker() {
    let g = grammar_of("S = A B 'z'\nB = c?\nc = 'w'");
    let follow_a = sorted(&g.follow_set("A", false).unwrap());
    assert_eq!(follow_a, strings(&["w", "z"]));
}

#[test]
fn self_repetition_follow_non_strict() {
    let g = grammar_of("Fn = 'fn' Fn* ';'");
    let first = sorted(&g.first_set("Fn").unwrap());
    let follow = sorted(&g.follow_set("Fn", false).unwrap());
    assert_eq!(first, strings(&["fn"]));
    assert_eq!(follow, strings(&["fn", ";"]));
    for t in &first {
        assert!(follow.contains(t));
    }
}

#[test]
fn self_repetition_follow_strict() {
    let g = grammar_of("Fn = 'fn' Fn* ';'");
    let follow = sorted(&g.follow_set("Fn", true).unwrap());
    assert_eq!(follow, strings(&[";"]));
}

#[test]
fn cycle_terminates() {
    let g = grammar_of("A = B\nB = A");
    assert!(g.first_set("A").unwrap().is_empty());
    assert!(g.first_set("B").unwrap().is_empty());
    assert!(g.follow_set("A", false).unwrap().is_empty());
}

#[test]
fn queries_are_idempotent() {
    let g = grammar_of("S = A 'x' | A* 'y'\nA = 'a' A? | 'b'");
    let f1 = sorted(&g.first_set("S").unwrap());
    let f2 = sorted(&g.first_set("S").unwrap());
    assert_eq!(f1, f2);
    assert_eq!(f1, strings(&["a", "b", "y"]));
    let w1 = sorted(&g.follow_set("A", false).unwrap());
    let w2 = sorted(&g.follow_set("A", false).unwrap());
    assert_eq!(w1, w2);
    let s1 = sorted(&g.follow_set("A", true).unwrap());
    let s2 = sorted(&g.follow_set("A", true).unwrap());
    assert_eq!(s1, s2);
}

#[test]
fn first_of_undeclared_rule_is_an_error() {
    let g = grammar_of("A = 'x'");
    match g.first_set("Q") {
        Err(GrammarError::UndefinedRule(name)) => assert_eq!(name, "Q"),
        other => panic!("unexpected {:?}", other),
    }
}

#[test]
fn reference_to_undeclared_rule_is_an_error() {
    let g = grammar_of("A = B 'x'");
    match g.first_set("A") {
        Err(GrammarError::UndefinedRule(name)) => assert_eq!(name, "B"),
        other => panic!("unexpected {:?}", other),
    }
}

#[test]
fn follow_over_a_bare_right_hand_side_is_an_error() {
    let mut rules = IndexMap::new();
    rules.insert("A".to_string(), lit("x"));
    let g = Grammar { rules };
    match g.follow_set("A", false) {
        Err(GrammarError::NotAlternatives(name)) => assert_eq!(name, "A"),
        other => panic!("unexpected {:?}", other),
    }
}

#[test]
fn produces_at_end_and_aliases() {
    let g = grammar_of("A = B\nB = C\nC = 'c'");
    let seq = Expr::Sequence(vec![lit("a"), rule("X")]);
    assert!(seq.produces_at_end(&rule("X")));
    assert!(!seq.produces_at_end(&lit("a")));
    let choice = Expr::Choice(vec![lit("a"), Expr::Optional(Box::new(rule("X")))]);
    assert!(choice.produces_at_end(&rule("X")));
    let a_body = g.rules.get("A").unwrap();
    assert!(a_body.is_alias(&rule("B"), &g.rules));
    assert!(!a_body.is_alias(&rule("Q"), &g.rules));
    assert!(!a_body.may_miss(&g.rules));
    assert!(Expr::Optional(Box::new(lit("z"))).may_miss(&g.rules));
}

#[test]
fn self_repetition_keeps_the_marker_out_of_follow() {
    let g = grammar_of("A = A*");
    assert_eq!(sorted(&g.first_set("A").unwrap()), strings(&["\u{3b5}"]));
    assert!(g.follow_set("A", false).unwrap().is_empty());
}

#[test]
fn repetition_of_a_nullable_body_adds_first_without_marker() {
    let g = grammar_of("S = X* 'z'\nX = 'x'? S");
    let follow = sorted(&g.follow_set("X", false).unwrap());
    assert!(!follow.contains(&"\u{3b5}".to_string()));
    assert!(follow.contains(&"x".to_string()));
}

#[test]
fn produces_at_end_looks_into_the_last_element() {
    let seq = Expr::Sequence(vec![Expr::Repeat(Box::new(rule("Fn")))]);
    assert!(seq.produces_at_end(&rule("Fn")));
    let nested = Expr::Sequence(vec![lit("a"), Expr::Sequence(vec![lit("b"), rule("Q")])]);
    assert!(nested.produces_at_end(&rule("Q")));
    assert!(!nested.produces_at_end(&rule("a")));
}

#[test]
fn follow_reaches_a_reference_at_the_end_of_a_repeated_group() {
    let g = grammar_of("S = (a Fn)* ';'\nFn = 'f'\na = 'a'");
    let follow = sorted(&g.follow_set("Fn", false).unwrap());
    assert_eq!(follow, strings(&["a", ";"]));
}
