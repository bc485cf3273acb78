//! The abstract grammar and its FIRST and FOLLOW sets.

use crate::analysis::{
    Fault, FirstOut, Names, Rules, all_nullable, any_alias, any_nullable, arity,
    distinct_prefix, ends_in, ends_in_any, eps, find_rule, first_alt, first_fresh, first_of,
    first_result, first_seq, follow_alt, follow_of, follow_result, follow_rules, follow_seq,
    is_alias, join, lemma_distinct_prefix_set, lemma_distinct_prefix_unique, lemma_ends_in_rule, lemma_find_rule,
    lemma_join_empty, lemma_join_ok, lemma_no_items, lemma_operand_decreases,
    lemma_prepend_empty, lemma_prepend_twice, lemma_single_item, lemma_visit, lemma_visit_more,
    lookup, names, nullable, operands, passes_over, prepend, same_expr, same_from, unvisited,
};
use crate::collections::{
    names_clone, names_contains, names_get_index, names_insert, names_len, names_new,
    names_swap_remove, rule_entries, rules_get, rules_get_index, rules_insert, rules_len,
    rules_new, set_items,
};
use crate::parser::{Child, Kind, Tree};
use crate::token::{self, Token};
use indexmap::{IndexMap, IndexSet};
use vstd::prelude::*;
use vstd::string::StringSliceAdditionalSpecFns;
use vstd::utf8::{decode_utf8, encode_utf8, is_char_boundary};

verus! {

broadcast use vstd::std_specs::vec::group_vec_axioms;

/// A right-hand side: terminals, references to rules, and the EBNF operators.
#[derive(Debug, Eq)]
pub enum Expr {
    Literal(String),
    Rule(String),
    Sequence(Vec<Expr>),
    Choice(Vec<Expr>),
    Optional(Box<Expr>),
    Repeat(Box<Expr>),
}

/// Structural equality of `a` and `b`.
#[verifier::loop_isolation(false)]
fn same(a: &Expr, b: &Expr) -> (r: bool)
    ensures
        r == same_expr(*a, *b),
    decreases a, 1int,
{
    match a {
        Expr::Literal(x) => match b {
            Expr::Literal(y) => x.eq(y),
            _ => false,
        },
        Expr::Rule(x) => match b {
            Expr::Rule(y) => x.eq(y),
            _ => false,
        },
        Expr::Optional(x) => match b {
            Expr::Optional(y) => same(x, y),
            _ => false,
        },
        Expr::Repeat(x) => match b {
            Expr::Repeat(y) => same(x, y),
            _ => false,
        },
        Expr::Sequence(x) => match b {
            Expr::Sequence(y) => same_operands(a, b, x, y),
            _ => false,
        },
        Expr::Choice(x) => match b {
            Expr::Choice(y) => same_operands(a, b, x, y),
            _ => false,
        },
    }
}

/// Whether the operand lists `x` of `a` and `y` of `b` are pairwise equal.
#[verifier::loop_isolation(false)]
fn same_operands(a: &Expr, b: &Expr, x: &Vec<Expr>, y: &Vec<Expr>) -> (r: bool)
    requires
        operands(*a) == x@,
        operands(*b) == y@,
    ensures
        r == (x.len() == y.len() && same_from(*a, *b, 0)),
    decreases a, 0int,
{
    if x.len() != y.len() {
        return false;
    }
    let mut i: usize = 0;
    while i < x.len()
        invariant
            i <= x.len(),
            same_from(*a, *b, 0) == same_from(*a, *b, i as int),
        decreases x.len() - i,
    {
        proof {
            lemma_operand_decreases(*a, i as int);
        }
        if !same(&x[i], &y[i]) {
            return false;
        }
        i = i + 1;
    }
    true
}

impl PartialEq for Expr {
    fn eq(&self, other: &Expr) -> (r: bool)
        ensures
            r == same_expr(*self, *other),
    {
        same(self, other)
    }
}

impl vstd::std_specs::cmp::PartialEqSpecImpl for Expr {
    open spec fn obeys_eq_spec() -> bool {
        true
    }

    open spec fn eq_spec(&self, other: &Expr) -> bool {
        same_expr(*self, *other)
    }
}

impl Expr {
    /// Whether this expression ends in `expr` (see `ends_in`).
    #[verifier::loop_isolation(false)]
    pub fn produces_at_end(&self, expr: &Expr) -> (r: bool)
        ensures
            r == ends_in(*self, *expr),
        decreases self,
    {
        match self {
            Expr::Sequence(exprs) => {
                if exprs.len() == 0 {
                    false
                } else {
                    proof {
                        lemma_operand_decreases(*self, exprs.len() - 1);
                    }
                    exprs[exprs.len() - 1].produces_at_end(expr)
                }
            },
            Expr::Choice(branches) => {
                let mut i: usize = 0;
                while i < branches.len()
                    invariant
                        i <= branches.len(),
                        ends_in_any(*self, *expr, 0) == ends_in_any(*self, *expr, i as int),
                    decreases branches.len() - i,
                {
                    proof {
                        lemma_operand_decreases(*self, i as int);
                    }
                    if branches[i].produces_at_end(expr) {
                        return true;
                    }
                    i = i + 1;
                }
                false
            },
            Expr::Optional(x) => x.produces_at_end(expr),
            Expr::Repeat(x) => x.produces_at_end(expr),
            _ => same(expr, self),
        }
    }

    /// Whether this expression can derive the empty string (see `nullable`).
    pub fn may_miss(&self, rules: &IndexMap<String, Expr>) -> (r: bool)
        ensures
            r == nullable(rule_entries(*rules), *self, Set::empty()),
    {
        let seen = names_new();
        proof {
            assert(set_items(seen).to_set() =~= Set::empty());
        }
        self.nullable_in(rules, &seen)
    }

    #[verifier::loop_isolation(false)]
    fn nullable_in(&self, rules: &IndexMap<String, Expr>, seen: &IndexSet<String>) -> (r: bool)
        ensures
            r == nullable(rule_entries(*rules), *self, set_items(*seen).to_set()),
        decreases unvisited(rule_entries(*rules), set_items(*seen).to_set()), self,
    {
        let ghost g = rule_entries(*rules);
        let ghost vis = set_items(*seen).to_set();
        match self {
            Expr::Literal(_) => false,
            Expr::Rule(name) => {
                if names_contains(seen, name.as_str()) {
                    return false;
                }
                match rules_get(rules, name.as_str()) {
                    None => false,
                    Some(d) => {
                        let mut seen2 = names_clone(seen);
                        names_insert(&mut seen2, name.clone());
                        proof {
                            set_items(*seen).lemma_push_to_set_commute(name@);
                            lemma_visit(g, vis, name@);
                        }
                        d.nullable_in(rules, &seen2)
                    },
                }
            },
            Expr::Sequence(exprs) => {
                let mut i: usize = 0;
                while i < exprs.len()
                    invariant
                        i <= exprs.len(),
                        all_nullable(g, *self, 0, vis) == all_nullable(g, *self, i as int, vis),
                    decreases exprs.len() - i,
                {
                    proof {
                        lemma_operand_decreases(*self, i as int);
                    }
                    if !exprs[i].nullable_in(rules, seen) {
                        return false;
                    }
                    i = i + 1;
                }
                true
            },
            Expr::Choice(branches) => {
                let mut i: usize = 0;
                while i < branches.len()
                    invariant
                        i <= branches.len(),
                        any_nullable(g, *self, 0, vis) == any_nullable(g, *self, i as int, vis),
                    decreases branches.len() - i,
                {
                    proof {
                        lemma_operand_decreases(*self, i as int);
                    }
                    if branches[i].nullable_in(rules, seen) {
                        return true;
                    }
                    i = i + 1;
                }
                false
            },
            Expr::Optional(_) => true,
            Expr::Repeat(_) => true,
        }
    }

    /// Whether this expression is an alias of the rule that `expr` refers to
    /// (see `is_alias`).
    pub fn is_alias(&self, expr: &Expr, rules: &IndexMap<String, Expr>) -> (r: bool)
        requires
            *expr is Rule,
        ensures
            r == is_alias(rule_entries(*rules), *self, expr->Rule_0@, Set::empty()),
    {
        match expr {
            Expr::Rule(name) => {
                let seen = names_new();
                proof {
                    assert(set_items(seen).to_set() =~= Set::empty());
                }
                self.alias_in(name.as_str(), rules, &seen)
            },
            _ => false,
        }
    }

    #[verifier::loop_isolation(false)]
    fn alias_in(&self, name: &str, rules: &IndexMap<String, Expr>, seen: &IndexSet<String>) -> (r:
        bool)
        ensures
            r == is_alias(rule_entries(*rules), *self, name@, set_items(*seen).to_set()),
        decreases unvisited(rule_entries(*rules), set_items(*seen).to_set()), self,
    {
        let ghost g = rule_entries(*rules);
        let ghost vis = set_items(*seen).to_set();
        match self {
            Expr::Literal(_) => false,
            Expr::Rule(rule) => {
                let wanted = name.to_owned();
                if rule.eq(&wanted) {
                    return true;
                }
                if names_contains(seen, name) {
                    return false;
                }
                match rules_get(rules, name) {
                    None => false,
                    Some(d) => {
                        let mut seen2 = names_clone(seen);
                        names_insert(&mut seen2, name.to_owned());
                        proof {
                            set_items(*seen).lemma_push_to_set_commute(name@);
                            lemma_visit(g, vis, name@);
                        }
                        d.alias_in(rule.as_str(), rules, &seen2)
                    },
                }
            },
            Expr::Sequence(exprs) => {
                if exprs.len() != 1 {
                    return false;
                }
                proof {
                    lemma_operand_decreases(*self, 0);
                }
                exprs[0].alias_in(name, rules, seen)
            },
            Expr::Choice(branches) => {
                let mut i: usize = 0;
                while i < branches.len()
                    invariant
                        i <= branches.len(),
                        any_alias(g, *self, 0, name@, vis) == any_alias(g, *self, i as int, name@, vis),
                    decreases branches.len() - i,
                {
                    proof {
                        lemma_operand_decreases(*self, i as int);
                    }
                    if branches[i].alias_in(name, rules, seen) {
                        return true;
                    }
                    i = i + 1;
                }
                false
            },
            Expr::Optional(x) => x.alias_in(name, rules, seen),
            Expr::Repeat(x) => x.alias_in(name, rules, seen),
        }
    }
}

/// A grammar: rules keyed by name, in declaration order.
pub struct Grammar {
    pub rules: IndexMap<String, Expr>,
}

/// Why an analysis failed.
#[derive(Debug)]
pub enum GrammarError {
    /// A rule is referred to but never declared.
    UndefinedRule(String),
    /// A rule's right-hand side is neither a sequence nor a choice.
    NotAlternatives(String),
}

impl GrammarError {
    pub open spec fn fault(&self) -> Fault {
        match self {
            GrammarError::UndefinedRule(n) => Fault::Undefined(n@),
            GrammarError::NotAlternatives(n) => Fault::NotAlternatives(n@),
        }
    }
}

/// Whether `r` is what `out` describes, with `vis_after` the visited set after it.
pub open spec fn first_matches(out: FirstOut, r: Result<IndexSet<String>, GrammarError>, vis_after: Names) -> bool {
    match out {
        Ok((s, v)) => r matches Ok(x) && set_items(x).to_set() == s && vis_after == v,
        Err(f) => r matches Err(e) && e.fault() == f,
    }
}

/// Whether `r` is the outcome `out`, sets compared by their members.
pub open spec fn result_matches(out: Result<Names, Fault>, r: Result<IndexSet<String>, GrammarError>) -> bool {
    match out {
        Ok(s) => r matches Ok(x) && set_items(x).to_set() == s,
        Err(f) => r matches Err(e) && e.fault() == f,
    }
}

/// Adds the members of `src` to `dst`.
fn extend(dst: &mut IndexSet<String>, src: &IndexSet<String>)
    ensures
        set_items(*final(dst)).to_set() == set_items(*old(dst)).to_set().union(set_items(*src).to_set()),
{
    let n = names_len(src);
    let ghost start = set_items(*dst).to_set();
    let mut i: usize = 0;
    while i < n
        invariant
            n == set_items(*src).len(),
            i <= n,
            set_items(*dst).to_set() == start.union(set_items(*src).take(i as int).to_set()),
        decreases n - i,
    {
        let ghost before = set_items(*dst);
        let v = names_get_index(src, i).unwrap();
        names_insert(dst, v.clone());
        proof {
            before.lemma_push_to_set_commute(v@);
            assert(set_items(*src).take(i + 1) =~= set_items(*src).take(i as int).push(v@));
            set_items(*src).take(i as int).lemma_push_to_set_commute(v@);
            if !before.to_set().contains(v@) {
            } else {
                assert(before.push(v@).to_set() =~= before.to_set());
            }
        }
        i = i + 1;
    }
    proof {
        assert(set_items(*src).take(n as int) =~= set_items(*src));
    }
}

/// The empty-string marker as a `String`.
fn eps_string() -> (r: String)
    ensures
        r@ == eps(),
{
    let s = "\u{3b5}";
    proof {
        reveal_strlit("\u{3b5}");
    }
    s.to_owned()
}

impl Grammar {
    /// The rules as a sequence of names with their right-hand sides.
    pub open spec fn view(&self) -> Rules {
        rule_entries(self.rules)
    }

    /// FIRST of `expr`, given the rules already visited in `productions`, which
    /// gains every rule this traversal enters.
    #[verifier::loop_isolation(false)]
    pub fn first_set_impl(&self, expr: &Expr, productions: &mut IndexSet<String>) -> (r: Result<
        IndexSet<String>,
        GrammarError,
    >)
        ensures
            first_matches(
                first_of(self@, *expr, set_items(*old(productions)).to_set()),
                r,
                set_items(*final(productions)).to_set(),
            ),
            set_items(*old(productions)).to_set().subset_of(set_items(*final(productions)).to_set()),
        decreases unvisited(self@, set_items(*old(productions)).to_set()), expr,
    {
        let ghost g = self@;
        let ghost vis0 = set_items(*productions).to_set();
        match expr {
            Expr::Literal(lit) => {
                let mut set = names_new();
                names_insert(&mut set, lit.clone());
                proof {
                    lemma_single_item(lit@);
                }
                Ok(set)
            },
            Expr::Rule(rule) => {
                let ghost before = set_items(*productions);
                if !names_insert(productions, rule.clone()) {
                    proof {
                        lemma_no_items();
                    }
                    return Ok(names_new());
                }
                proof {
                    before.lemma_push_to_set_commute(rule@);
                }
                match rules_get(&self.rules, rule.as_str()) {
                    None => Err(GrammarError::UndefinedRule(rule.clone())),
                    Some(d) => {
                        proof {
                            lemma_visit(g, vis0, rule@);
                        }
                        self.first_set_impl(d, productions)
                    },
                }
            },
            Expr::Optional(x) => self.first_set_impl(x, productions),
            Expr::Repeat(x) => self.first_set_impl(x, productions),
            Expr::Sequence(exprs) => {
                let mut set = names_new();
                proof {
                    lemma_no_items();
                    lemma_prepend_empty(first_seq(g, *expr, 0, vis0));
                }
                let mut i: usize = 0;
                while i < exprs.len()
                    invariant
                        g == self@,
                        *expr == Expr::Sequence(*exprs),
                        i <= exprs.len(),
                        vis0.subset_of(set_items(*productions).to_set()),
                        first_seq(g, *expr, 0, vis0) == prepend(
                            set_items(set).to_set(),
                            first_seq(g, *expr, i as int, set_items(*productions).to_set()),
                        ),
                    decreases exprs.len() - i,
                {
                    let ghost vis = set_items(*productions).to_set();
                    let curr = &exprs[i];
                    if let Expr::Rule(name) = curr {
                        if rules_get(&self.rules, name.as_str()).is_none() {
                            return Err(GrammarError::UndefinedRule(name.clone()));
                        }
                    }
                    let passes = self.passes_over(curr, productions);
                    proof {
                        lemma_operand_decreases(*expr, i as int);
                        lemma_visit_more(g, vis0, vis);
                        assert(vis0.union(vis) =~= vis);
                    }
                    let sub = match self.first_set_impl(curr, productions) {
                        Ok(sub) => sub,
                        Err(e) => {
                            return Err(e);
                        },
                    };
                    let ghost before = set_items(set).to_set();
                    extend(&mut set, &sub);
                    proof {
                        let v1 = set_items(*productions).to_set();
                        assert(vis.union(v1) =~= v1);
                        assert(before.union(set_items(sub).to_set()) == set_items(set).to_set());
                        lemma_prepend_twice(before, set_items(sub).to_set(), first_seq(g, *expr, i + 1, v1));
                    }
                    if !passes {
                        return Ok(set);
                    }
                    i = i + 1;
                }
                let ghost before = set_items(set);
                names_insert(&mut set, eps_string());
                proof {
                    before.lemma_push_to_set_commute(eps());
                    assert(set_items(set).to_set() =~= before.to_set().union(set![eps()]));
                }
                Ok(set)
            },
            Expr::Choice(exprs) => {
                let mut set = names_new();
                proof {
                    lemma_no_items();
                    lemma_prepend_empty(first_alt(g, *expr, 0, vis0));
                }
                let mut i: usize = 0;
                while i < exprs.len()
                    invariant
                        g == self@,
                        *expr == Expr::Choice(*exprs),
                        i <= exprs.len(),
                        vis0.subset_of(set_items(*productions).to_set()),
                        first_alt(g, *expr, 0, vis0) == prepend(
                            set_items(set).to_set(),
                            first_alt(g, *expr, i as int, set_items(*productions).to_set()),
                        ),
                    decreases exprs.len() - i,
                {
                    let ghost vis = set_items(*productions).to_set();
                    proof {
                        lemma_operand_decreases(*expr, i as int);
                        lemma_visit_more(g, vis0, vis);
                        assert(vis0.union(vis) =~= vis);
                    }
                    let sub = match self.first_set_impl(&exprs[i], productions) {
                        Ok(sub) => sub,
                        Err(e) => {
                            return Err(e);
                        },
                    };
                    let ghost before = set_items(set).to_set();
                    extend(&mut set, &sub);
                    proof {
                        let v1 = set_items(*productions).to_set();
                        assert(vis.union(v1) =~= v1);
                        lemma_prepend_twice(before, set_items(sub).to_set(), first_alt(g, *expr, i + 1, v1));
                    }
                    i = i + 1;
                }
                proof {
                    assert(set_items(set).to_set().union(Set::empty()) =~= set_items(set).to_set());
                }
                Ok(set)
            },
        }
    }

    /// FIRST of the rule `name` (see `first_result`).
    pub fn first_set(&self, name: &str) -> (r: Result<IndexSet<String>, GrammarError>)
        ensures
            result_matches(first_result(self@, name@), r),
    {
        let expr = match rules_get(&self.rules, name) {
            Some(expr) => expr,
            None => {
                return Err(GrammarError::UndefinedRule(name.to_owned()));
            },
        };
        let mut productions = names_new();
        names_insert(&mut productions, name.to_owned());
        proof {
            lemma_single_item(name@);
        }
        self.first_set_impl(expr, &mut productions)
    }

    /// The names of the rules, in declaration order.
    pub fn non_terminals(&self) -> (r: IndexSet<String>)
        ensures
            set_items(r) == distinct_prefix(self@.map_values(|p: (Seq<char>, Expr)| p.0), self@.len() as int),
            set_items(r).to_set() == names(self@),
    {
        let n = rules_len(&self.rules);
        let mut r = names_new();
        let ghost keys = self@.map_values(|p: (Seq<char>, Expr)| p.0);
        let mut i: usize = 0;
        while i < n
            invariant
                n == self@.len(),
                keys == self@.map_values(|p: (Seq<char>, Expr)| p.0),
                i <= n,
                set_items(r) == distinct_prefix(keys, i as int),
            decreases n - i,
        {
            let (name, _) = rules_get_index(&self.rules, i).unwrap();
            names_insert(&mut r, name.clone());
            i = i + 1;
        }
        proof {
            lemma_distinct_prefix_set(keys, n as int);
            assert(keys.take(n as int) =~= keys);
        }
        r
    }

    /// What the right-hand side `expr` of the rule `parent` contributes to
    /// FOLLOW of `of` (see `follow_of`); `productions` holds the rules whose
    /// FOLLOW is being computed on this path. With `strict`, a repetition of
    /// something ending in `of` does not add FIRST of its body.
    #[verifier::loop_isolation(false)]
    pub fn follow_set_impl(
        &self,
        of: &str,
        parent: &str,
        expr: &Expr,
        productions: &mut IndexSet<String>,
        strict: bool,
    ) -> (r: Result<IndexSet<String>, GrammarError>)
        ensures
            result_matches(
                follow_of(self@, of@, parent@, *expr, set_items(*old(productions)).to_set(), strict),
                r,
            ),
            *final(productions) == *old(productions),
        decreases unvisited(self@, set_items(*old(productions)).to_set()), expr,
    {
        let ghost g = self@;
        let ghost prods = set_items(*productions).to_set();
        match expr {
            Expr::Choice(branches) => {
                let mut set = names_new();
                proof {
                    lemma_no_items();
                    lemma_join_empty(follow_alt(g, of@, parent@, *expr, 0, prods, strict));
                }
                let mut i: usize = 0;
                while i < branches.len()
                    invariant
                        i <= branches.len(),
                        *productions == *old(productions),
                        follow_alt(g, of@, parent@, *expr, 0, prods, strict) == join(
                            Ok(set_items(set).to_set()),
                            follow_alt(g, of@, parent@, *expr, i as int, prods, strict),
                        ),
                    decreases branches.len() - i,
                {
                    proof {
                        lemma_operand_decreases(*expr, i as int);
                    }
                    let sub = match self.follow_set_impl(of, parent, &branches[i], productions, strict) {
                        Ok(sub) => sub,
                        Err(e) => {
                            return Err(e);
                        },
                    };
                    let ghost before = set_items(set).to_set();
                    extend(&mut set, &sub);
                    proof {
                        lemma_join_ok(
                            before,
                            set_items(sub).to_set(),
                            follow_alt(g, of@, parent@, *expr, i + 1, prods, strict),
                        );
                    }
                    i = i + 1;
                }
                proof {
                    assert(set_items(set).to_set().union(Set::empty()) =~= set_items(set).to_set());
                }
                Ok(set)
            },
            Expr::Sequence(exprs) => {
                let target = Expr::Rule(of.to_owned());
                let mut set = names_new();
                proof {
                    lemma_no_items();
                    lemma_join_empty(follow_seq(g, of@, parent@, *expr, 0, false, prods, strict));
                }
                let mut last_may_be_empty = false;
                let mut i: usize = 0;
                while i < exprs.len()
                    invariant
                        i <= exprs.len(),
                        *productions == *old(productions),
                        follow_seq(g, of@, parent@, *expr, 0, false, prods, strict) == join(
                            Ok(set_items(set).to_set()),
                            follow_seq(g, of@, parent@, *expr, i as int, last_may_be_empty, prods, strict),
                        ),
                    decreases exprs.len() - i,
                {
                    let x = &exprs[i];
                    let ghost lme = last_may_be_empty;
                    let ghost acc = set_items(set).to_set();
                    proof {
                        lemma_ends_in_rule(*x, target);
                    }
                    let is_match = last_may_be_empty || x.produces_at_end(&target);
                    if !is_match {
                        i = i + 1;
                        continue;
                    }
                    let mut repeated = names_new();
                    proof {
                        lemma_no_items();
                    }
                    if let Expr::Repeat(rep) = x {
                        proof {
                            lemma_ends_in_rule(**rep, target);
                        }
                        if rep.produces_at_end(&target) && !strict {
                            let mut fresh = names_new();
                            proof {
                                lemma_no_items();
                            }
                            repeated = match self.first_set_impl(rep, &mut fresh) {
                                Ok(f) => f,
                                Err(e) => {
                                    return Err(e);
                                },
                            };
                            let eps_text = eps_string();
                            names_swap_remove(&mut repeated, eps_text.as_str());
                        }
                    }
                    let ghost rep_set = set_items(repeated).to_set();
                    let mut perform_follow = true;
                    let mut following = names_new();
                    if i + 1 < exprs.len() {
                        let next = &exprs[i + 1];
                        let mut fresh = names_new();
                        proof {
                            lemma_no_items();
                        }
                        following = match self.first_set_impl(next, &mut fresh) {
                            Ok(f) => f,
                            Err(e) => {
                                return Err(e);
                            },
                        };
                        let eps_text = eps_string();
                        let contains_empty = names_swap_remove(&mut following, eps_text.as_str());
                        proof {
                            assert(set_items(following).to_set() =~= first_fresh(g, *next)->Ok_0.remove(eps()));
                        }
                        last_may_be_empty = contains_empty || next.may_miss(&self.rules);
                        perform_follow = contains_empty;
                    } else {
                        proof {
                            lemma_no_items();
                        }
                    }
                    let ghost follow_part = set_items(following).to_set();
                    let mut nested = names_new();
                    proof {
                        lemma_no_items();
                    }
                    if perform_follow {
                        proof {
                            lemma_join_empty(follow_rules(g, parent@, 0, prods, strict));
                        }
                        let n = rules_len(&self.rules);
                        let mut j: usize = 0;
                        while j < n
                            invariant
                                n == g.len(),
                                j <= n,
                                *productions == *old(productions),
                                follow_rules(g, parent@, 0, prods, strict) == join(
                                    Ok(set_items(nested).to_set()),
                                    follow_rules(g, parent@, j as int, prods, strict),
                                ),
                            decreases n - j,
                        {
                            let (sub_name, sub_rule) = rules_get_index(&self.rules, j).unwrap();
                            let mut sub_productions = names_clone(productions);
                            if !names_insert(&mut sub_productions, sub_name.clone()) {
                                j = j + 1;
                                continue;
                            }
                            proof {
                                set_items(*productions).lemma_push_to_set_commute(sub_name@);
                                lemma_visit(g, prods, sub_name@);
                            }
                            let sub = match self.follow_set_impl(
                                parent,
                                sub_name.as_str(),
                                sub_rule,
                                &mut sub_productions,
                                strict,
                            ) {
                                Ok(sub) => sub,
                                Err(e) => {
                                    return Err(e);
                                },
                            };
                            let ghost before = set_items(nested).to_set();
                            extend(&mut nested, &sub);
                            proof {
                                lemma_join_ok(
                                    before,
                                    set_items(sub).to_set(),
                                    follow_rules(g, parent@, j + 1, prods, strict),
                                );
                            }
                            j = j + 1;
                        }
                        proof {
                            assert(set_items(nested).to_set().union(Set::empty()) =~= set_items(nested).to_set());
                        }
                    }
                    extend(&mut set, &repeated);
                    extend(&mut set, &following);
                    extend(&mut set, &nested);
                    proof {
                        let rest = follow_seq(g, of@, parent@, *expr, i + 1, last_may_be_empty, prods, strict);
                        let n_set = set_items(nested).to_set();
                        lemma_join_ok(follow_part, n_set, rest);
                        lemma_join_ok(rep_set, follow_part.union(n_set), rest);
                        lemma_join_ok(acc, rep_set.union(follow_part.union(n_set)), rest);
                        assert(acc.union(rep_set.union(follow_part.union(n_set))) =~= set_items(set).to_set());
                    }
                    i = i + 1;
                }
                proof {
                    assert(set_items(set).to_set().union(Set::empty()) =~= set_items(set).to_set());
                }
                Ok(set)
            },
            _ => Err(GrammarError::NotAlternatives(parent.to_owned())),
        }
    }

    /// FOLLOW of the rule `name`: what every rule contributes, in declaration
    /// order (see `follow_result`).
    pub fn follow_set(&self, name: &str, strict: bool) -> (r: Result<IndexSet<String>, GrammarError>)
        ensures
            result_matches(follow_result(self@, name@, strict), r),
    {
        let ghost g = self@;
        let mut set = names_new();
        proof {
            lemma_no_items();
            lemma_join_empty(follow_rules(g, name@, 0, Set::empty(), strict));
        }
        let n = rules_len(&self.rules);
        let mut j: usize = 0;
        while j < n
            invariant
                g == self@,
                n == g.len(),
                j <= n,
                follow_rules(g, name@, 0, Set::empty(), strict) == join(
                    Ok(set_items(set).to_set()),
                    follow_rules(g, name@, j as int, Set::empty(), strict),
                ),
            decreases n - j,
        {
            let (rule_name, rule) = rules_get_index(&self.rules, j).unwrap();
            let mut productions = names_new();
            names_insert(&mut productions, rule_name.clone());
            proof {
                lemma_single_item(rule_name@);
                assert(set![rule_name@] =~= Set::<Seq<char>>::empty().insert(rule_name@));
            }
            let sub = match self.follow_set_impl(name, rule_name.as_str(), rule, &mut productions, strict) {
                Ok(sub) => sub,
                Err(e) => {
                    return Err(e);
                },
            };
            let ghost before = set_items(set).to_set();
            extend(&mut set, &sub);
            proof {
                lemma_join_ok(before, set_items(sub).to_set(), follow_rules(g, name@, j + 1, Set::empty(), strict));
            }
            j = j + 1;
        }
        proof {
            assert(set_items(set).to_set().union(Set::empty()) =~= set_items(set).to_set());
        }
        Ok(set)
    }

    /// Whether the FIRST scan of a sequence goes on past `c` (see `passes_over`).
    #[verifier::loop_isolation(false)]
    fn passes_over(&self, c: &Expr, productions: &IndexSet<String>) -> (r: bool)
        ensures
            r == passes_over(self@, *c, set_items(*productions).to_set()),
    {
        match c {
            Expr::Optional(_) => true,
            Expr::Repeat(_) => true,
            Expr::Rule(rule) => {
                let d = match rules_get(&self.rules, rule.as_str()) {
                    Some(d) => d,
                    None => {
                        return false;
                    },
                };
                let n = names_len(productions);
                let mut j: usize = 0;
                while j < n
                    invariant
                        n == set_items(*productions).len(),
                        j <= n,
                        lookup(self@, rule@) == Some(*d),
                        forall|k: int| 0 <= k < j ==> #[trigger] is_alias(self@, *d, set_items(*productions)[k], Set::empty()),
                    decreases n - j,
                {
                    let visited = names_get_index(productions, j).unwrap();
                    if !d.is_alias(&Expr::Rule(visited.clone()), &self.rules) {
                        proof {
                            assert(set_items(*productions).to_set().contains(visited@));
                        }
                        return false;
                    }
                    j = j + 1;
                }
                proof {
                    let items = set_items(*productions);
                    assert forall|m: Seq<char>| #[trigger] items.to_set().contains(m) implies is_alias(
                        self@,
                        *d,
                        m,
                        Set::empty(),
                    ) by {
                        let k = choose|k: int| 0 <= k < items.len() && items[k] == m;
                        assert(is_alias(self@, *d, items[k], Set::empty()));
                    }
                }
                c.may_miss(&self.rules)
            },
            _ => false,
        }
    }
}

/// A FIRST query answers the same way every time: two results that both meet
/// `first_set`'s contract for one grammar and name fail alike or hold the same terminals.
pub proof fn lemma_first_deterministic(
    g: Rules,
    name: Seq<char>,
    r1: Result<IndexSet<String>, GrammarError>,
    r2: Result<IndexSet<String>, GrammarError>,
)
    requires
        result_matches(first_result(g, name), r1),
        result_matches(first_result(g, name), r2),
    ensures
        r1 is Ok <==> r2 is Ok,
        r1 matches Ok(a) ==> r2 matches Ok(b) && set_items(a).to_set() == set_items(b).to_set(),
        r1 matches Err(e1) ==> r2 matches Err(e2) && e1.fault() == e2.fault(),
{
}

/// A FOLLOW query answers the same way every time: two results that both meet
/// `follow_set`'s contract for one grammar, name and mode fail alike or hold
/// the same terminals.
pub proof fn lemma_follow_deterministic(
    g: Rules,
    name: Seq<char>,
    strict: bool,
    r1: Result<IndexSet<String>, GrammarError>,
    r2: Result<IndexSet<String>, GrammarError>,
)
    requires
        result_matches(follow_result(g, name, strict), r1),
        result_matches(follow_result(g, name, strict), r2),
    ensures
        r1 is Ok <==> r2 is Ok,
        r1 matches Ok(a) ==> r2 matches Ok(b) && set_items(a).to_set() == set_items(b).to_set(),
        r1 matches Err(e1) ==> r2 matches Err(e2) && e1.fault() == e2.fault(),
{
}

/// `start..end` is a range of `src` whose ends are character boundaries.
pub open spec fn text_range(src: Seq<u8>, start: int, end: int) -> bool {
    &&& 0 <= start <= end <= src.len()
    &&& is_char_boundary(src, start)
    &&& is_char_boundary(src, end)
}

/// `s` is the text of the bytes `start..end` of `src`.
pub open spec fn text_at(src: Seq<u8>, s: Seq<char>, start: int, end: int) -> bool {
    0 <= start <= end <= src.len() && encode_utf8(s) == src.subrange(start, end)
}

/// The child `i` of a tree node `c`.
pub open spec fn child_at(c: Child, i: int) -> Child {
    c->Tree_0.children@[i]
}

/// The number of children of a tree node `c`.
pub open spec fn child_count(c: Child) -> int {
    match c {
        Child::Tree(t) => t.children.len() as int,
        Child::Token(_) => 0,
    }
}

/// Whether `c` has a shape that lowers to an expression: an identifier or a
/// quoted literal whose text lies on character boundaries, or a sequence,
/// non-empty branch, optional or repetition node whose operands lower.
pub open spec fn shaped(src: Seq<u8>, c: Child) -> bool
    decreases c, child_count(c) + 1,
{
    match c {
        Child::Token(t) => (t.kind == token::Kind::Literal && text_range(
            src,
            t.span.start + 1,
            t.span.end - 1,
        )) || (t.kind == token::Kind::Ident && text_range(src, t.span.start as int, t.span.end as int)),
        Child::Tree(tr) => match tr.kind {
            Kind::Sequence => all_shaped(src, c, 0),
            Kind::Branch => tr.children.len() >= 1 && all_shaped(src, c, 0),
            Kind::Optional => tr.children.len() >= 1 && shaped(src, tr.children@[0]),
            Kind::ZeroOrMore => tr.children.len() >= 1 && shaped(src, tr.children@[0]),
            _ => false,
        },
    }
}

/// Whether the children of the node `c` from position `i` on are `shaped`.
pub open spec fn all_shaped(src: Seq<u8>, c: Child, i: int) -> bool
    decreases c, child_count(c) - i,
{
    match c {
        Child::Tree(tr) => if 0 <= i < tr.children.len() {
            shaped(src, tr.children@[i]) && all_shaped(src, c, i + 1)
        } else {
            true
        },
        Child::Token(_) => true,
    }
}

/// Whether `e` is the expression that `c` lowers to: an identifier becomes a
/// reference, a literal its text without the quotes, sequence, optional and
/// repetition nodes the same operator, and a branch node a choice, or its
/// only child when it has one.
pub open spec fn lowers_to(src: Seq<u8>, c: Child, e: Expr) -> bool
    decreases c, child_count(c) + 1,
{
    match c {
        Child::Token(t) => if t.kind == token::Kind::Literal {
            e matches Expr::Literal(s) && text_at(src, s@, t.span.start + 1, t.span.end - 1)
        } else {
            t.kind == token::Kind::Ident && (e matches Expr::Rule(s) && text_at(
                src,
                s@,
                t.span.start as int,
                t.span.end as int,
            ))
        },
        Child::Tree(tr) => match tr.kind {
            Kind::Sequence => e is Sequence && arity(e) == tr.children.len() && lowers_all(src, c, e, 0),
            Kind::Branch => if tr.children.len() == 1 {
                lowers_to(src, tr.children@[0], e)
            } else {
                e is Choice && arity(e) == tr.children.len() && lowers_all(src, c, e, 0)
            },
            Kind::Optional => tr.children.len() >= 1 && (e matches Expr::Optional(x) && lowers_to(
                src,
                tr.children@[0],
                *x,
            )),
            Kind::ZeroOrMore => tr.children.len() >= 1 && (e matches Expr::Repeat(x) && lowers_to(
                src,
                tr.children@[0],
                *x,
            )),
            _ => false,
        },
    }
}

/// Whether each child of `c` from position `i` on lowers to the operand of `e` at that position.
pub open spec fn lowers_all(src: Seq<u8>, c: Child, e: Expr, i: int) -> bool
    decreases c, child_count(c) - i,
{
    match c {
        Child::Tree(tr) => if 0 <= i < tr.children.len() {
            lowers_to(src, tr.children@[i], operands(e)[i]) && lowers_all(src, c, e, i + 1)
        } else {
            true
        },
        Child::Token(_) => true,
    }
}

/// Whether `c` is a rule node: an identifier naming the rule, then a shaped right-hand side.
pub open spec fn rule_shaped(src: Seq<u8>, c: Child) -> bool {
    &&& c matches Child::Tree(tr)
    &&& tr.kind == Kind::Rule
    &&& tr.children.len() >= 2
    &&& tr.children@[0] matches Child::Token(t)
    &&& t.kind == token::Kind::Ident
    &&& text_range(src, t.span.start as int, t.span.end as int)
    &&& shaped(src, tr.children@[1])
}

/// Whether the rule node `c` is named `name`.
pub open spec fn names_rule(src: Seq<u8>, c: Child, name: Seq<char>) -> bool {
    let t = child_at(c, 0)->Token_0;
    text_at(src, name, t.span.start as int, t.span.end as int)
}

/// Whether the rule node `c` declares `name` with a right-hand side that lowers to `e`.
pub open spec fn declares(src: Seq<u8>, c: Child, name: Seq<char>, e: Expr) -> bool {
    let t = child_at(c, 0)->Token_0;
    &&& text_at(src, name, t.span.start as int, t.span.end as int)
    &&& lowers_to(src, child_at(c, 1), e)
}

/// Why a tree could not be lowered.
#[derive(Debug)]
pub enum BuildError {
    /// A child of the root is not a rule node with a name and a right-hand side.
    NotARule,
    /// A token that is neither an identifier nor a literal, or whose text
    /// does not lie on character boundaries of the source.
    BadToken(Token),
    /// A node of a kind that has no expression, or without its operand.
    BadNode(Kind),
}

/// The text of the bytes `start..end` of `source`, when both ends are character boundaries.
fn text_between(source: &str, start: usize, end: usize) -> (r: Option<String>)
    ensures
        r is Some <==> text_range(source.spec_bytes(), start as int, end as int),
        r matches Some(t) ==> text_at(source.spec_bytes(), t@, start as int, end as int),
{
    let ghost b = source.spec_bytes();
    let in_range = start <= end && end <= source.as_bytes().len();
    if !in_range {
        return None;
    }
    let at_start = source.is_char_boundary(start);
    let at_end = source.is_char_boundary(end);
    proof {
        assert(at_start == is_char_boundary(b, start as int));
        assert(at_end == is_char_boundary(b, end as int));
    }
    if at_start && at_end {
        proof {
            vstd::utf8::encode_utf8_valid_utf8(source@);
        }
        let (head, _) = source.split_at(end);
        let ghost hb = head.spec_bytes();
        proof {
            vstd::utf8::valid_utf8_split(b, end as int);
            assert(hb == b.subrange(0, end as int));
            if start == end {
                vstd::utf8::is_char_boundary_start_end_of_seq(hb);
            } else if start > 0 {
                vstd::utf8::is_char_boundary_iff_not_is_continuation_byte(b, start as int);
                vstd::utf8::is_char_boundary_iff_not_is_continuation_byte(hb, start as int);
            }
        }
        let (_, mid) = head.split_at(start);
        let r = mid.to_owned();
        proof {
            assert(mid.spec_bytes() =~= b.subrange(start as int, end as int));
        }
        Some(r)
    } else {
        None
    }
}

proof fn lemma_child_decreases(c: Child, i: int)
    requires
        c is Tree,
        0 <= i < child_count(c),
    ensures
        decreases_to!(c => child_at(c, i)),
{
    if let Child::Tree(tr) = c {
        assert(decreases_to!(tr.children => tr.children[i]));
    }
}

/// Builds the grammar of a concrete tree.
pub struct GrammarBuilder<'src> {
    source: &'src str,
    tree: Tree,
}

impl<'src> GrammarBuilder<'src> {
    pub fn new(source: &'src str, tree: Tree) -> (r: Self)
        ensures
            r.source() == source,
            r.tree() == tree,
    {
        GrammarBuilder { source, tree }
    }

    pub closed spec fn source(&self) -> &'src str {
        self.source
    }

    pub closed spec fn tree(&self) -> Tree {
        self.tree
    }

    /// The expression that `child` lowers to (see `lowers_to`).
    #[verifier::loop_isolation(false)]
    fn parse_expr(&self, child: &Child) -> (r: Result<Expr, BuildError>)
        ensures
            r is Ok <==> shaped(self.source.spec_bytes(), *child),
            r matches Ok(e) ==> lowers_to(self.source.spec_bytes(), *child, e),
        decreases child,
    {
        let ghost src = self.source.spec_bytes();
        match child {
            Child::Token(token) => {
                if token.kind == token::Kind::Literal {
                    if token.span.end < 1 || token.span.start >= usize::MAX {
                        return Err(BuildError::BadToken(*token));
                    }
                    match text_between(self.source, token.span.start + 1, token.span.end - 1) {
                        Some(text) => Ok(Expr::Literal(text)),
                        None => Err(BuildError::BadToken(*token)),
                    }
                } else if token.kind == token::Kind::Ident {
                    match text_between(self.source, token.span.start, token.span.end) {
                        Some(text) => Ok(Expr::Rule(text)),
                        None => Err(BuildError::BadToken(*token)),
                    }
                } else {
                    Err(BuildError::BadToken(*token))
                }
            },
            Child::Tree(tree) => {
                if tree.kind == Kind::Optional || tree.kind == Kind::ZeroOrMore {
                    if tree.children.len() < 1 {
                        return Err(BuildError::BadNode(tree.kind));
                    }
                    proof {
                        lemma_child_decreases(*child, 0);
                    }
                    let inner = match self.parse_expr(&tree.children[0]) {
                        Ok(e) => e,
                        Err(e) => {
                            return Err(e);
                        },
                    };
                    if tree.kind == Kind::Optional {
                        Ok(Expr::Optional(Box::new(inner)))
                    } else {
                        Ok(Expr::Repeat(Box::new(inner)))
                    }
                } else if tree.kind == Kind::Sequence || tree.kind == Kind::Branch {
                    if tree.kind == Kind::Branch && tree.children.len() == 0 {
                        return Err(BuildError::BadNode(tree.kind));
                    }
                    if tree.kind == Kind::Branch && tree.children.len() == 1 {
                        proof {
                            lemma_child_decreases(*child, 0);
                        }
                        let r = self.parse_expr(&tree.children[0]);
                        proof {
                            assert(all_shaped(src, *child, 0) == (shaped(src, tree.children@[0]) && all_shaped(src, *child, 1)));
                        }
                        return r;
                    }
                    let mut exprs: Vec<Expr> = Vec::new();
                    let mut i: usize = 0;
                    while i < tree.children.len()
                        invariant
                            *child == Child::Tree(*tree),
                            src == self.source.spec_bytes(),
                            i <= tree.children.len(),
                            exprs@.len() == i,
                            all_shaped(src, *child, 0) == all_shaped(src, *child, i as int),
                            forall|j: int| 0 <= j < i ==> #[trigger] lowers_to(src, tree.children@[j], exprs@[j]),
                        decreases tree.children.len() - i,
                    {
                        proof {
                            lemma_child_decreases(*child, i as int);
                        }
                        let e = match self.parse_expr(&tree.children[i]) {
                            Ok(e) => e,
                            Err(e) => {
                                proof {
                                    assert(!all_shaped(src, *child, i as int));
                                    assert(shaped(src, *child) == all_shaped(src, *child, 0));
                                }
                                return Err(e);
                            },
                        };
                        proof {
                            assert(all_shaped(src, *child, i as int) == all_shaped(src, *child, i + 1));
                        }
                        exprs.push(e);
                        i = i + 1;
                    }
                    let ghost v = exprs@;
                    let r = if tree.kind == Kind::Sequence {
                        Expr::Sequence(exprs)
                    } else {
                        Expr::Choice(exprs)
                    };
                    proof {
                        assert(operands(r) == v);
                        lemma_lowers_all(src, *child, r, 0);
                    }
                    Ok(r)
                } else {
                    Err(BuildError::BadNode(tree.kind))
                }
            },
        }
    }

    /// The name and right-hand side of the rule node `child`.
    fn lower_rule(&self, child: &Child) -> (r: Result<(String, Expr), BuildError>)
        ensures
            r is Ok <==> rule_shaped(self.source.spec_bytes(), *child),
            r matches Ok((n, e)) ==> declares(self.source.spec_bytes(), *child, n@, e) && names_rule(
                self.source.spec_bytes(),
                *child,
                n@,
            ),
    {
        let ghost src = self.source.spec_bytes();
        let (name_token, rhs) = match child {
            Child::Tree(node) => {
                if node.kind != Kind::Rule || node.children.len() < 2 {
                    proof {
                        assert(!rule_shaped(src, *child));
                    }
                    return Err(BuildError::NotARule);
                }
                match &node.children[0] {
                    Child::Token(t) => {
                        if t.kind != token::Kind::Ident {
                            proof {
                                assert(!rule_shaped(src, *child));
                            }
                            return Err(BuildError::NotARule);
                        }
                        (*t, &node.children[1])
                    },
                    Child::Tree(_) => {
                        proof {
                            assert(!rule_shaped(src, *child));
                        }
                        return Err(BuildError::NotARule);
                    },
                }
            },
            Child::Token(_) => {
                proof {
                    assert(!rule_shaped(src, *child));
                }
                return Err(BuildError::NotARule);
            },
        };
        let name = match text_between(self.source, name_token.span.start, name_token.span.end) {
            Some(name) => name,
            None => {
                proof {
                    assert(!rule_shaped(src, *child));
                }
                return Err(BuildError::BadToken(name_token));
            },
        };
        let expr = match self.parse_expr(rhs) {
            Ok(e) => e,
            Err(e) => {
                proof {
                    assert(!rule_shaped(src, *child));
                }
                return Err(e);
            },
        };
        proof {
            assert(rule_shaped(src, *child));
        }
        Ok((name, expr))
    }

    /// The grammar of the tree: one rule for each rule node, in the order of
    /// first declaration; a later rule of the same name replaces the earlier one.
    pub fn build(self) -> (r: Result<Grammar, BuildError>)
        ensures
            r is Ok <==> forall|j: int|
                0 <= j < self.tree().children.len() ==> #[trigger] rule_shaped(
                    self.source().spec_bytes(),
                    self.tree().children@[j],
                ),
            r matches Ok(g) ==> built_from(
                self.source().spec_bytes(),
                self.tree().children@,
                self.tree().children.len() as int,
                g@,
            ),
            r matches Ok(g) ==> forall|k: int| 0 <= k < g@.len() ==> #[trigger] wide_choices(g@[k].1),
            r matches Ok(g) ==> each_declared(self.source().spec_bytes(), self.tree().children@, g@),
            r matches Ok(g) ==> each_named(
                self.source().spec_bytes(),
                self.tree().children@,
                self.tree().children.len() as int,
                g@,
            ),
    {
        let ghost src = self.source.spec_bytes();
        let ghost children = self.tree.children@;
        let mut rules = rules_new();
        proof {
            assert(rule_entries(rules).map_values(|p: (Seq<char>, Expr)| p.0) =~= distinct_prefix(
                decl_names(src, children),
                0,
            ));
        }
        let mut i: usize = 0;
        while i < self.tree.children.len()
            invariant
                src == self.source.spec_bytes(),
                children == self.tree.children@,
                i <= children.len(),
                forall|j: int| 0 <= j < i ==> #[trigger] rule_shaped(src, children[j]),
                each_declared(src, children.take(i as int), rule_entries(rules)),
                each_named(src, children, i as int, rule_entries(rules)),
                built_from(src, children, i as int, rule_entries(rules)),
            decreases children.len() - i,
        {
            let (name, expr) = match self.lower_rule(&self.tree.children[i]) {
                Ok(pair) => pair,
                Err(e) => {
                    proof {
                        assert(!rule_shaped(self.source().spec_bytes(), self.tree().children@[i as int]));
                    }
                    return Err(e);
                },
            };
            let ghost before = rule_entries(rules);
            proof {
                lemma_find_rule(before, name@, 0);
            }
            rules_insert(&mut rules, name, expr);
            proof {
                lemma_insert_declared(src, children, i as int, before, rule_entries(rules), name@, expr);
                lemma_built_step(src, children, i as int, before, rule_entries(rules), name@, expr);
            }
            i = i + 1;
        }
        proof {
            assert(children.take(children.len() as int) =~= children);
            let g = rule_entries(rules);
            assert forall|k: int| 0 <= k < g.len() implies #[trigger] wide_choices(g[k].1) by {
                assert(declared_by(src, children, g[k].0, g[k].1));
                let j = choose|j: int|
                    0 <= j < children.len() && #[trigger] declares(src, children[j], g[k].0, g[k].1);
                assert(rule_shaped(src, children[j]));
                lemma_lowered_choices_are_wide(src, child_at(children[j], 1), g[k].1);
            }
        }
        Ok(Grammar { rules })
    }
}

/// The grammar of the concrete tree `tree` parsed from `source` (see `GrammarBuilder::build`).
pub fn build_grammar(source: &str, tree: Tree) -> (r: Result<Grammar, BuildError>)
    ensures
        r is Ok <==> forall|j: int|
            0 <= j < tree.children.len() ==> #[trigger] rule_shaped(source.spec_bytes(), tree.children@[j]),
        r matches Ok(g) ==> built_from(source.spec_bytes(), tree.children@, tree.children.len() as int, g@),
        r matches Ok(g) ==> forall|k: int| 0 <= k < g@.len() ==> #[trigger] wide_choices(g@[k].1),
        r matches Ok(g) ==> each_declared(source.spec_bytes(), tree.children@, g@),
        r matches Ok(g) ==> each_named(source.spec_bytes(), tree.children@, tree.children.len() as int, g@),
{
    GrammarBuilder::new(source, tree).build()
}

/// Every choice in `e` has at least two branches.
pub open spec fn wide_choices(e: Expr) -> bool
    decreases e, arity(e) + 1,
{
    match e {
        Expr::Sequence(_) => all_wide(e, 0),
        Expr::Choice(v) => v.len() >= 2 && all_wide(e, 0),
        Expr::Optional(x) => wide_choices(*x),
        Expr::Repeat(x) => wide_choices(*x),
        _ => true,
    }
}

/// `wide_choices` holds of the operands of `e` from position `i` on.
pub open spec fn all_wide(e: Expr, i: int) -> bool
    decreases e, arity(e) - i,
{
    if 0 <= i < operands(e).len() {
        wide_choices(operands(e)[i]) && all_wide(e, i + 1)
    } else {
        true
    }
}

/// What a shaped node lowers to has no choice of fewer than two branches: a
/// branch node with one child becomes that child.
pub proof fn lemma_lowered_choices_are_wide(src: Seq<u8>, c: Child, e: Expr)
    requires
        shaped(src, c),
        lowers_to(src, c, e),
    ensures
        wide_choices(e),
    decreases c, child_count(c) + 1,
{
    if let Child::Tree(tr) = c {
        if tr.kind == Kind::Sequence || (tr.kind == Kind::Branch && tr.children.len() != 1) {
            lemma_lowered_all_wide(src, c, e, 0);
        } else if tr.kind == Kind::Branch {
            lemma_child_decreases(c, 0);
            assert(all_shaped(src, c, 0));
            assert(shaped(src, tr.children@[0]));
            lemma_lowered_choices_are_wide(src, tr.children@[0], e);
        } else if tr.kind == Kind::Optional || tr.kind == Kind::ZeroOrMore {
            lemma_child_decreases(c, 0);
            match e {
                Expr::Optional(x) => lemma_lowered_choices_are_wide(src, tr.children@[0], *x),
                Expr::Repeat(x) => lemma_lowered_choices_are_wide(src, tr.children@[0], *x),
                _ => {},
            }
        }
    }
}

proof fn lemma_lowered_all_wide(src: Seq<u8>, c: Child, e: Expr, i: int)
    requires
        c is Tree,
        0 <= i,
        all_shaped(src, c, i),
        lowers_all(src, c, e, i),
        operands(e).len() == child_count(c),
    ensures
        all_wide(e, i),
    decreases c, child_count(c) - i,
{
    if i < child_count(c) {
        lemma_child_decreases(c, i);
        assert(shaped(src, child_at(c, i)));
        assert(lowers_to(src, child_at(c, i), operands(e)[i]));
        lemma_lowered_choices_are_wide(src, child_at(c, i), operands(e)[i]);
        lemma_lowered_all_wide(src, c, e, i + 1);
    }
}

/// The name that the rule node `c` declares: the text of its first child.
pub open spec fn decl_name(src: Seq<u8>, c: Child) -> Seq<char> {
    let t = child_at(c, 0)->Token_0;
    decode_utf8(src.subrange(t.span.start as int, t.span.end as int))
}

/// The names that the rule nodes `children` declare, in order.
pub open spec fn decl_names(src: Seq<u8>, children: Seq<Child>) -> Seq<Seq<char>> {
    Seq::new(children.len(), |j: int| decl_name(src, children[j]))
}

/// The position of the last of the first `n` rule nodes that declares `name`, or -1.
pub open spec fn last_decl(src: Seq<u8>, children: Seq<Child>, n: int, name: Seq<char>) -> int
    decreases n,
{
    if n <= 0 {
        -1
    } else if decl_name(src, children[n - 1]) == name {
        n - 1
    } else {
        last_decl(src, children, n - 1, name)
    }
}

/// `g` holds the rules that the first `n` rule nodes declare: the names in
/// order of first declaration, each once, and each with the right-hand side
/// of its last declaration.
pub open spec fn built_from(src: Seq<u8>, children: Seq<Child>, n: int, g: Rules) -> bool {
    &&& g.map_values(|p: (Seq<char>, Expr)| p.0) == distinct_prefix(decl_names(src, children), n)
    &&& forall|k: int|
        0 <= k < g.len() ==> #[trigger] declares(
            src,
            children[last_decl(src, children, n, g[k].0)],
            g[k].0,
            g[k].1,
        )
}

proof fn lemma_built_step(
    src: Seq<u8>,
    children: Seq<Child>,
    i: int,
    before: Rules,
    after: Rules,
    name: Seq<char>,
    e: Expr,
)
    requires
        0 <= i < children.len(),
        built_from(src, children, i, before),
        declares(src, children[i], name, e),
        names_rule(src, children[i], name),
        find_rule(before, name, 0) >= 0 ==> after == before.update(find_rule(before, name, 0), (name, e)),
        find_rule(before, name, 0) < 0 ==> after == before.push((name, e)),
    ensures
        built_from(src, children, i + 1, after),
{
    let f = find_rule(before, name, 0);
    lemma_find_rule(before, name, 0);
    vstd::utf8::encode_utf8_decode_utf8(name);
    assert(decl_name(src, children[i]) == name);
    let names = decl_names(src, children);
    assert(names[i] == name);
    let keys = before.map_values(|p: (Seq<char>, Expr)| p.0);
    lemma_distinct_prefix_unique(names, i);
    if f >= 0 {
        assert(keys[f] == name);
        assert(keys.contains(name));
        assert(after.map_values(|p: (Seq<char>, Expr)| p.0) =~= keys);
    } else {
        assert(!keys.contains(name)) by {
            if keys.contains(name) {
                let k = choose|k: int| 0 <= k < keys.len() && keys[k] == name;
                assert(before[k].0 == name);
            }
        }
        assert(after.map_values(|p: (Seq<char>, Expr)| p.0) =~= keys.push(name));
    }
    assert forall|k: int| 0 <= k < after.len() implies #[trigger] declares(
        src,
        children[last_decl(src, children, i + 1, after[k].0)],
        after[k].0,
        after[k].1,
    ) by {
        if (f >= 0 && k == f) || (f < 0 && k == before.len()) {
            assert(after[k] == (name, e));
        } else {
            assert(after[k] == before[k]);
            assert(keys[k] == before[k].0);
            if f >= 0 {
                assert(keys[f] == name);
            }
            assert(before[k].0 != name);
            assert(last_decl(src, children, i + 1, after[k].0) == last_decl(src, children, i, before[k].0));
            assert(declares(src, children[last_decl(src, children, i, before[k].0)], before[k].0, before[k].1));
        }
    }
}

/// One of the rule nodes `children` declares `name` with the right-hand side `e`.
pub open spec fn declared_by(src: Seq<u8>, children: Seq<Child>, name: Seq<char>, e: Expr) -> bool {
    exists|j: int| 0 <= j < children.len() && #[trigger] declares(src, children[j], name, e)
}

/// Some rule of `g` has the name of the rule node `c`.
pub open spec fn named_in(src: Seq<u8>, c: Child, g: Rules) -> bool {
    exists|k: int| 0 <= k < g.len() && #[trigger] names_rule(src, c, g[k].0)
}

/// Every rule of `g` is declared, with that right-hand side, by one of the rule nodes `children`.
pub open spec fn each_declared(src: Seq<u8>, children: Seq<Child>, g: Rules) -> bool {
    forall|k: int| 0 <= k < g.len() ==> #[trigger] declared_by(src, children, g[k].0, g[k].1)
}

/// Each of the first `n` rule nodes of `children` names a rule of `g`.
pub open spec fn each_named(src: Seq<u8>, children: Seq<Child>, n: int, g: Rules) -> bool {
    forall|j: int| 0 <= j < n ==> #[trigger] named_in(src, children[j], g)
}

proof fn lemma_insert_declared(
    src: Seq<u8>,
    children: Seq<Child>,
    i: int,
    before: Rules,
    after: Rules,
    name: Seq<char>,
    e: Expr,
)
    requires
        0 <= i < children.len(),
        each_declared(src, children.take(i), before),
        each_named(src, children, i, before),
        declares(src, children[i], name, e),
        names_rule(src, children[i], name),
        find_rule(before, name, 0) >= 0 ==> after == before.update(find_rule(before, name, 0), (name, e)),
        find_rule(before, name, 0) < 0 ==> after == before.push((name, e)),
        find_rule(before, name, 0) >= 0 ==> find_rule(before, name, 0) < before.len() && before[find_rule(before, name, 0)].0 == name,
    ensures
        each_declared(src, children.take(i + 1), after),
        each_named(src, children, i + 1, after),
{
    let f = find_rule(before, name, 0);
    lemma_declared_step(src, children, i, before, after, name, e, f);
    assert(forall|k: int| 0 <= k < before.len() ==> #[trigger] after[k].0 == before[k].0);
    lemma_named_step(src, children, i, before, after, name, f);
}

proof fn lemma_declared_step(
    src: Seq<u8>,
    children: Seq<Child>,
    i: int,
    before: Rules,
    after: Rules,
    name: Seq<char>,
    e: Expr,
    f: int,
)
    requires
        0 <= i < children.len(),
        each_declared(src, children.take(i), before),
        declares(src, children[i], name, e),
        f >= 0 ==> f < before.len() && after == before.update(f, (name, e)),
        f < 0 ==> after == before.push((name, e)),
    ensures
        each_declared(src, children.take(i + 1), after),
{
    let c1 = children.take(i);
    let c2 = children.take(i + 1);
    assert forall|k: int| 0 <= k < after.len() implies #[trigger] declared_by(src, c2, after[k].0, after[k].1) by {
        if (f >= 0 && k != f) || (f < 0 && k < before.len()) {
            assert(after[k] == before[k]);
            assert(declared_by(src, c1, before[k].0, before[k].1));
            let j = choose|j: int| 0 <= j < c1.len() && #[trigger] declares(src, c1[j], before[k].0, before[k].1);
            assert(c2[j] == c1[j]);
            assert(declares(src, c2[j], after[k].0, after[k].1));
        } else {
            assert(after[k] == (name, e));
            assert(c2[i] == children[i]);
            assert(declares(src, c2[i], after[k].0, after[k].1));
        }
    }
}

proof fn lemma_named_step(
    src: Seq<u8>,
    children: Seq<Child>,
    i: int,
    before: Rules,
    after: Rules,
    name: Seq<char>,
    f: int,
)
    requires
        0 <= i < children.len(),
        each_named(src, children, i, before),
        names_rule(src, children[i], name),
        f >= 0 ==> f < before.len() && before[f].0 == name && after.len() == before.len() && after[f].0
            == name && forall|k: int| 0 <= k < before.len() ==> #[trigger] after[k].0 == before[k].0,
        f < 0 ==> after.len() == before.len() + 1 && after[before.len() as int].0 == name && forall|k: int|
            0 <= k < before.len() ==> #[trigger] after[k].0 == before[k].0,
    ensures
        each_named(src, children, i + 1, after),
{
    assert forall|j: int| 0 <= j < i + 1 implies #[trigger] named_in(src, children[j], after) by {
        if j < i {
            assert(named_in(src, children[j], before));
            let k = choose|k: int| 0 <= k < before.len() && #[trigger] names_rule(src, children[j], before[k].0);
            assert(after[k].0 == before[k].0);
            assert(names_rule(src, children[j], after[k].0));
        } else {
            let k = if f >= 0 { f } else { before.len() as int };
            assert(after[k].0 == name);
            assert(names_rule(src, children[j], after[k].0));
        }
    }
}

proof fn lemma_lowers_all(src: Seq<u8>, c: Child, e: Expr, i: int)
    requires
        c is Tree,
        0 <= i <= child_count(c),
        operands(e).len() == child_count(c),
        forall|j: int| 0 <= j < child_count(c) ==> #[trigger] lowers_to(src, child_at(c, j), operands(e)[j]),
    ensures
        lowers_all(src, c, e, i),
    decreases child_count(c) - i,
{
    if i < child_count(c) {
        assert(lowers_to(src, child_at(c, i), operands(e)[i]));
        lemma_lowers_all(src, c, e, i + 1);
    }
}

} // verus!
