//! What FIRST and FOLLOW are, stated over the rules as a sequence of names
//! and right-hand sides, with the facts about them that the analysis needs.

use crate::grammar::Expr;
use vstd::prelude::*;

verus! {

broadcast use vstd::std_specs::vec::group_vec_axioms;

/// The rules of a grammar in declaration order: each name with its right-hand side.
pub type Rules = Seq<(Seq<char>, Expr)>;

/// A set of rule names or of terminals.
pub type Names = Set<Seq<char>>;

/// Why an analysis stopped: a reference to a rule that is not declared, or a
/// rule whose right-hand side is neither a sequence nor a choice.
pub enum Fault {
    Undefined(Seq<char>),
    NotAlternatives(Seq<char>),
}

/// The marker for "may derive the empty string".
pub open spec fn eps() -> Seq<char> {
    seq!['\u{3b5}']
}

/// The names of the rules of `g`.
pub open spec fn names(g: Rules) -> Names {
    g.map_values(|p: (Seq<char>, Expr)| p.0).to_set()
}

/// The index of the first rule named `n` at or after `i`, or -1.
pub open spec fn find_rule(g: Rules, n: Seq<char>, i: int) -> int
    decreases g.len() - i,
{
    if !(0 <= i < g.len()) {
        -1
    } else if g[i].0 == n {
        i
    } else {
        find_rule(g, n, i + 1)
    }
}

/// The right-hand side of the first rule named `n`.
pub open spec fn lookup(g: Rules, n: Seq<char>) -> Option<Expr> {
    let i = find_rule(g, n, 0);
    if i >= 0 {
        Some(g[i].1)
    } else {
        None
    }
}

/// How many rule names are not yet in `vis`: what bounds every traversal.
pub open spec fn unvisited(g: Rules, vis: Names) -> nat {
    names(g).difference(vis).len()
}

/// The number of operands of a sequence or choice.
pub open spec fn arity(e: Expr) -> int {
    match e {
        Expr::Sequence(v) => v.len() as int,
        Expr::Choice(v) => v.len() as int,
        _ => 0,
    }
}

/// Structural equality, with names and literals compared by their text.
pub open spec fn same_expr(a: Expr, b: Expr) -> bool
    decreases a, arity(a) + 1,
{
    match a {
        Expr::Literal(x) => b matches Expr::Literal(y) && x@ == y@,
        Expr::Rule(x) => b matches Expr::Rule(y) && x@ == y@,
        Expr::Sequence(x) => b matches Expr::Sequence(y) && x.len() == y.len() && same_from(
            a,
            b,
            0,
        ),
        Expr::Choice(x) => b matches Expr::Choice(y) && x.len() == y.len() && same_from(a, b, 0),
        Expr::Optional(x) => b matches Expr::Optional(y) && same_expr(*x, *y),
        Expr::Repeat(x) => b matches Expr::Repeat(y) && same_expr(*x, *y),
    }
}

/// Whether the operands of `a` and `b` from position `i` on are pairwise equal.
pub open spec fn same_from(a: Expr, b: Expr, i: int) -> bool
    decreases a, arity(a) - i,
{
    if 0 <= i < operands(a).len() && i < operands(b).len() {
        same_expr(operands(a)[i], operands(b)[i]) && same_from(a, b, i + 1)
    } else {
        true
    }
}

/// Whether `e` is a reference to the rule `name`.
pub open spec fn is_rule_named(e: Expr, name: Seq<char>) -> bool {
    e matches Expr::Rule(r) && r@ == name
}

/// Whether `e` ends in `target`: it is `target`, or a sequence whose last
/// element ends in it, or a choice with a branch that ends in it, or an
/// option or repetition of something that ends in it.
pub open spec fn ends_in(e: Expr, target: Expr) -> bool
    decreases e, arity(e) + 1,
{
    match e {
        Expr::Sequence(v) => v.len() > 0 && ends_in(v@.last(), target),
        Expr::Choice(_) => ends_in_any(e, target, 0),
        Expr::Optional(x) => ends_in(*x, target),
        Expr::Repeat(x) => ends_in(*x, target),
        _ => same_expr(target, e),
    }
}

/// Whether some branch of the choice `e` from position `i` on ends in `target`.
pub open spec fn ends_in_any(e: Expr, target: Expr, i: int) -> bool
    decreases e, arity(e) - i,
{
    match e {
        Expr::Choice(v) => 0 <= i < v.len() && (ends_in(v@[i], target) || ends_in_any(e, target, i + 1)),
        _ => false,
    }
}

/// Whether `e` can derive the empty string. A reference to a rule already in
/// `seen` (a cycle) or to an undeclared rule derives nothing.
pub open spec fn nullable(g: Rules, e: Expr, seen: Names) -> bool
    decreases unvisited(g, seen), e, arity(e) + 1,
    via nullable_decreases
{
    match e {
        Expr::Literal(_) => false,
        Expr::Rule(r) => !seen.contains(r@) && match lookup(g, r@) {
            Some(d) => nullable(g, d, seen.insert(r@)),
            None => false,
        },
        Expr::Sequence(_) => all_nullable(g, e, 0, seen),
        Expr::Choice(_) => any_nullable(g, e, 0, seen),
        Expr::Optional(_) => true,
        Expr::Repeat(_) => true,
    }
}

/// Whether every element of the sequence `e` from position `i` on is nullable.
pub open spec fn all_nullable(g: Rules, e: Expr, i: int, seen: Names) -> bool
    decreases unvisited(g, seen), e, arity(e) - i,
{
    match e {
        Expr::Sequence(v) => if 0 <= i < v.len() {
            nullable(g, v@[i], seen) && all_nullable(g, e, i + 1, seen)
        } else {
            true
        },
        _ => true,
    }
}

/// Whether some branch of the choice `e` from position `i` on is nullable.
pub open spec fn any_nullable(g: Rules, e: Expr, i: int, seen: Names) -> bool
    decreases unvisited(g, seen), e, arity(e) - i,
{
    match e {
        Expr::Choice(v) => if 0 <= i < v.len() {
            nullable(g, v@[i], seen) || any_nullable(g, e, i + 1, seen)
        } else {
            false
        },
        _ => false,
    }
}

/// Whether `e`, once single-element sequences, choices, options and
/// repetitions are looked through, refers to the rule `name`, directly or
/// through a rule whose own right-hand side is such a reference. Rules in
/// `seen` are not looked up again.
pub open spec fn is_alias(g: Rules, e: Expr, name: Seq<char>, seen: Names) -> bool
    decreases unvisited(g, seen), e, arity(e) + 1,
    via is_alias_decreases
{
    match e {
        Expr::Literal(_) => false,
        Expr::Rule(r) => r@ == name || (!seen.contains(name) && match lookup(g, name) {
            Some(d) => is_alias(g, d, r@, seen.insert(name)),
            None => false,
        }),
        Expr::Sequence(v) => v.len() == 1 && is_alias(g, v@[0], name, seen),
        Expr::Choice(_) => any_alias(g, e, 0, name, seen),
        Expr::Optional(x) => is_alias(g, *x, name, seen),
        Expr::Repeat(x) => is_alias(g, *x, name, seen),
    }
}

/// Whether some branch of the choice `e` from position `i` on is an alias of `name`.
pub open spec fn any_alias(g: Rules, e: Expr, i: int, name: Seq<char>, seen: Names) -> bool
    decreases unvisited(g, seen), e, arity(e) - i,
{
    match e {
        Expr::Choice(v) => if 0 <= i < v.len() {
            is_alias(g, v@[i], name, seen) || any_alias(g, e, i + 1, name, seen)
        } else {
            false
        },
        _ => false,
    }
}

/// What FIRST yields: the terminals, and the set of visited rules after the
/// traversal; or the fault that stopped it.
pub type FirstOut = Result<(Names, Names), Fault>;

/// Whether the sequence scan in FIRST goes on past the element `c`: options and
/// repetitions are passed over, and so is a nullable reference to a rule `r`
/// when `r` is an alias of every rule visited so far.
pub open spec fn passes_over(g: Rules, c: Expr, vis: Names) -> bool {
    match c {
        Expr::Optional(_) => true,
        Expr::Repeat(_) => true,
        Expr::Rule(r) => lookup(g, r@) matches Some(d) && (forall|n: Seq<char>|
            #[trigger] vis.contains(n) ==> is_alias(g, d, n, Set::empty())) && nullable(
            g,
            c,
            Set::empty(),
        ),
        _ => false,
    }
}

/// The name of `c` when it is a reference to an undeclared rule.
pub open spec fn undefined_ref(g: Rules, c: Expr) -> Option<Seq<char>> {
    match c {
        Expr::Rule(r) => if lookup(g, r@) is None {
            Some(r@)
        } else {
            None
        },
        _ => None,
    }
}

/// FIRST of `e`, given the rules `vis` already visited on this traversal; a
/// reference to a visited rule adds nothing, and the visited set is shared
/// from each operand to the next.
pub open spec fn first_of(g: Rules, e: Expr, vis: Names) -> FirstOut
    decreases unvisited(g, vis), 1int, e, arity(e) + 1,
    via first_of_decreases
{
    match e {
        Expr::Literal(l) => Ok((set![l@], vis)),
        Expr::Rule(r) => if vis.contains(r@) {
            Ok((Set::empty(), vis))
        } else {
            match lookup(g, r@) {
                Some(d) => first_of(g, d, vis.insert(r@)),
                None => Err(Fault::Undefined(r@)),
            }
        },
        Expr::Sequence(_) => first_seq(g, e, 0, vis),
        Expr::Choice(_) => first_alt(g, e, 0, vis),
        Expr::Optional(x) => first_of(g, *x, vis),
        Expr::Repeat(x) => first_of(g, *x, vis),
    }
}

/// FIRST of the elements of the sequence `e` from position `i` on: each
/// element's FIRST is taken until one that `passes_over` does not accept; the
/// empty marker is added when the scan runs off the end.
pub open spec fn first_seq(g: Rules, e: Expr, i: int, vis: Names) -> FirstOut
    decreases unvisited(g, vis), 1int, e, arity(e) - i,
    via first_seq_decreases
{
    match e {
        Expr::Sequence(v) => if !(0 <= i < v.len()) {
            Ok((set![eps()], vis))
        } else {
            let c = v@[i];
            if undefined_ref(g, c) is Some {
                Err(Fault::Undefined(undefined_ref(g, c)->0))
            } else {
                match first_of(g, c, vis) {
                    Err(f) => Err(f),
                    Ok((s, v1)) => if passes_over(g, c, vis) {
                        match first_seq(g, e, i + 1, vis.union(v1)) {
                            Err(f) => Err(f),
                            Ok((s2, v2)) => Ok((s.union(s2), v2)),
                        }
                    } else {
                        Ok((s, v1))
                    },
                }
            }
        },
        _ => Ok((Set::empty(), vis)),
    }
}

/// FIRST of the branches of the choice `e` from position `i` on.
pub open spec fn first_alt(g: Rules, e: Expr, i: int, vis: Names) -> FirstOut
    decreases unvisited(g, vis), 1int, e, arity(e) - i,
    via first_alt_decreases
{
    match e {
        Expr::Choice(v) => if !(0 <= i < v.len()) {
            Ok((Set::empty(), vis))
        } else {
            match first_of(g, v@[i], vis) {
                Err(f) => Err(f),
                Ok((s, v1)) => match first_alt(g, e, i + 1, vis.union(v1)) {
                    Err(f) => Err(f),
                    Ok((s2, v2)) => Ok((s.union(s2), v2)),
                },
            }
        },
        _ => Ok((Set::empty(), vis)),
    }
}

/// FIRST of the rule `name`: the terminals that can begin one of its
/// derivations, with the empty marker where a sequence may vanish.
pub open spec fn first_result(g: Rules, name: Seq<char>) -> Result<Names, Fault> {
    match lookup(g, name) {
        None => Err(Fault::Undefined(name)),
        Some(d) => match first_of(g, d, set![name]) {
            Ok((s, _)) => Ok(s),
            Err(f) => Err(f),
        },
    }
}

/// FIRST of `e` on a fresh traversal, as FOLLOW uses it.
pub open spec fn first_fresh(g: Rules, e: Expr) -> Result<Names, Fault> {
    match first_of(g, e, Set::empty()) {
        Ok((s, _)) => Ok(s),
        Err(f) => Err(f),
    }
}

/// The union of two outcomes; the first fault wins.
pub open spec fn join(a: Result<Names, Fault>, b: Result<Names, Fault>) -> Result<Names, Fault> {
    match a {
        Err(f) => Err(f),
        Ok(x) => match b {
            Err(f) => Err(f),
            Ok(y) => Ok(x.union(y)),
        },
    }
}

/// FOLLOW contributions to `of` from the right-hand side `e` of the rule
/// `parent`; `prods` holds the rules whose FOLLOW is being computed on this
/// path, none of which is entered again.
pub open spec fn follow_of(
    g: Rules,
    of: Seq<char>,
    parent: Seq<char>,
    e: Expr,
    prods: Names,
    strict: bool,
) -> Result<Names, Fault>
    decreases unvisited(g, prods), 1int, e, arity(e) + 2,
{
    match e {
        Expr::Choice(_) => follow_alt(g, of, parent, e, 0, prods, strict),
        Expr::Sequence(_) => follow_seq(g, of, parent, e, 0, false, prods, strict),
        _ => Err(Fault::NotAlternatives(parent)),
    }
}

/// `follow_of` over the branches of the choice `e` from position `i` on.
pub open spec fn follow_alt(
    g: Rules,
    of: Seq<char>,
    parent: Seq<char>,
    e: Expr,
    i: int,
    prods: Names,
    strict: bool,
) -> Result<Names, Fault>
    decreases unvisited(g, prods), 1int, e, arity(e) - i + 1,
{
    match e {
        Expr::Choice(v) => if !(0 <= i < v.len()) {
            Ok(Set::empty())
        } else {
            join(
                follow_of(g, of, parent, v@[i], prods, strict),
                follow_alt(g, of, parent, e, i + 1, prods, strict),
            )
        },
        _ => Ok(Set::empty()),
    }
}

/// The scan of the sequence `e` from position `i` on. An element matches when
/// it ends in a reference to `of`, or when the element before it was nullable
/// (`after_nullable`). At a match: a repetition of something that ends in `of`
/// adds FIRST of its body (without the empty marker) unless `strict`; the next element adds its FIRST
/// without the empty marker; and when nothing follows, or the next element's
/// FIRST has the empty marker, FOLLOW of `parent` is added.
pub open spec fn follow_seq(
    g: Rules,
    of: Seq<char>,
    parent: Seq<char>,
    e: Expr,
    i: int,
    after_nullable: bool,
    prods: Names,
    strict: bool,
) -> Result<Names, Fault>
    decreases unvisited(g, prods), 1int, e, arity(e) - i + 1,
{
    match e {
        Expr::Sequence(v) => if !(0 <= i < v.len()) {
            Ok(Set::empty())
        } else {
            let x = v@[i];
            if !(after_nullable || ends_in_rule(x, of)) {
                follow_seq(g, of, parent, e, i + 1, after_nullable, prods, strict)
            } else {
                let repeated = match x {
                    Expr::Repeat(body) => if ends_in_rule(*body, of) && !strict {
                        match first_fresh(g, *body) {
                            Ok(fb) => Ok(fb.remove(eps())),
                            Err(f) => Err(f),
                        }
                    } else {
                        Ok(Set::empty())
                    },
                    _ => Ok(Set::empty()),
                };
                if i + 1 < v.len() {
                    let next = v@[i + 1];
                    match first_fresh(g, next) {
                        Err(f) => join(repeated, Err(f)),
                        Ok(fs) => {
                            let has_eps = fs.contains(eps());
                            let nested = if has_eps {
                                follow_rules(g, parent, 0, prods, strict)
                            } else {
                                Ok(Set::empty())
                            };
                            join(
                                repeated,
                                join(
                                    Ok(fs.remove(eps())),
                                    join(
                                        nested,
                                        follow_seq(
                                            g,
                                            of,
                                            parent,
                                            e,
                                            i + 1,
                                            has_eps || nullable(g, next, Set::empty()),
                                            prods,
                                            strict,
                                        ),
                                    ),
                                ),
                            )
                        },
                    }
                } else {
                    join(repeated, follow_rules(g, parent, 0, prods, strict))
                }
            }
        },
        _ => Ok(Set::empty()),
    }
}

/// The FOLLOW contributions to `of` from each rule from position `j` on that
/// is not in `prods`, each computed with that rule added to `prods`.
pub open spec fn follow_rules(g: Rules, of: Seq<char>, j: int, prods: Names, strict: bool) -> Result<
    Names,
    Fault,
>
    decreases unvisited(g, prods), 0int, arbitrary::<Expr>(), g.len() - j,
    via follow_rules_decreases
{
    if !(0 <= j < g.len()) {
        Ok(Set::empty())
    } else if prods.contains(g[j].0) {
        follow_rules(g, of, j + 1, prods, strict)
    } else {
        join(
            follow_of(g, of, g[j].0, g[j].1, prods.insert(g[j].0), strict),
            follow_rules(g, of, j + 1, prods, strict),
        )
    }
}

/// Whether `e` ends in a reference to the rule `name`.
pub open spec fn ends_in_rule(e: Expr, name: Seq<char>) -> bool
    decreases e, arity(e) + 1,
{
    match e {
        Expr::Sequence(v) => v.len() > 0 && ends_in_rule(v@.last(), name),
        Expr::Choice(_) => ends_in_rule_any(e, name, 0),
        Expr::Optional(x) => ends_in_rule(*x, name),
        Expr::Repeat(x) => ends_in_rule(*x, name),
        _ => is_rule_named(e, name),
    }
}

/// Whether some branch of the choice `e` from position `i` on ends in a reference to `name`.
pub open spec fn ends_in_rule_any(e: Expr, name: Seq<char>, i: int) -> bool
    decreases e, arity(e) - i,
{
    match e {
        Expr::Choice(v) => 0 <= i < v.len() && (ends_in_rule(v@[i], name) || ends_in_rule_any(
            e,
            name,
            i + 1,
        )),
        _ => false,
    }
}

/// FOLLOW of `name`: what the rules of `g`, in declaration order, contribute.
pub open spec fn follow_result(g: Rules, name: Seq<char>, strict: bool) -> Result<Names, Fault> {
    follow_rules(g, name, 0, Set::empty(), strict)
}

/// The operands of a sequence or choice.
pub open spec fn operands(e: Expr) -> Seq<Expr> {
    match e {
        Expr::Sequence(v) => v@,
        Expr::Choice(v) => v@,
        _ => Seq::empty(),
    }
}

pub(crate) proof fn lemma_operand_decreases(e: Expr, i: int)
    requires
        0 <= i < operands(e).len(),
    ensures
        decreases_to!(e => operands(e)[i]),
{
    match e {
        Expr::Sequence(v) => {
            assert(decreases_to!(v => v[i]));
        },
        Expr::Choice(v) => {
            assert(decreases_to!(v => v[i]));
        },
        _ => {},
    }
}

/// `out` with the terminals `s` added to its own.
pub open spec fn prepend(s: Names, out: FirstOut) -> FirstOut {
    match out {
        Ok((t, v)) => Ok((s.union(t), v)),
        Err(f) => Err(f),
    }
}

pub(crate) proof fn lemma_join_empty(out: Result<Names, Fault>)
    ensures
        join(Ok(Set::empty()), out) == out,
{
    if let Ok(t) = out {
        assert(Set::<Seq<char>>::empty().union(t) =~= t);
    }
}

pub(crate) proof fn lemma_join_ok(a: Names, b: Names, out: Result<Names, Fault>)
    ensures
        join(Ok(a), join(Ok(b), out)) == join(Ok(a.union(b)), out),
{
    if let Ok(t) = out {
        assert(a.union(b.union(t)) =~= a.union(b).union(t));
    }
}

/// Ending in a reference to a rule is ending in a reference of that name.
pub(crate) proof fn lemma_ends_in_rule(e: Expr, target: Expr)
    requires
        target is Rule,
    ensures
        ends_in(e, target) == ends_in_rule(e, target->Rule_0@),
    decreases e, arity(e) + 1,
{
    match e {
        Expr::Sequence(v) => {
            if v.len() > 0 {
                lemma_operand_decreases(e, v.len() - 1);
                lemma_ends_in_rule(v@.last(), target);
            }
        },
        Expr::Choice(_) => lemma_ends_in_rule_any(e, target, 0),
        Expr::Optional(x) => lemma_ends_in_rule(*x, target),
        Expr::Repeat(x) => lemma_ends_in_rule(*x, target),
        _ => {},
    }
}

pub(crate) proof fn lemma_ends_in_rule_any(e: Expr, target: Expr, i: int)
    requires
        target is Rule,
    ensures
        ends_in_any(e, target, i) == ends_in_rule_any(e, target->Rule_0@, i),
    decreases e, arity(e) - i,
{
    if let Expr::Choice(v) = e {
        if 0 <= i < v.len() {
            lemma_operand_decreases(e, i);
            lemma_ends_in_rule(v@[i], target);
            lemma_ends_in_rule_any(e, target, i + 1);
        }
    }
}

pub(crate) proof fn lemma_prepend_empty(out: FirstOut)
    ensures
        prepend(Set::empty(), out) == out,
{
    if let Ok((t, v)) = out {
        assert(Set::<Seq<char>>::empty().union(t) =~= t);
    }
}

pub(crate) proof fn lemma_no_items()
    ensures
        Seq::<Seq<char>>::empty().to_set() == Set::<Seq<char>>::empty(),
{
    assert(Seq::<Seq<char>>::empty().to_set() =~= Set::<Seq<char>>::empty());
}

pub(crate) proof fn lemma_single_item(x: Seq<char>)
    ensures
        Seq::<Seq<char>>::empty().push(x).to_set() == set![x],
{
    assert(Seq::<Seq<char>>::empty().push(x).to_set() =~= set![x]) by {
        assert(Seq::<Seq<char>>::empty().push(x)[0] == x);
    }
}

pub(crate) proof fn lemma_prepend_twice(a: Names, b: Names, out: FirstOut)
    ensures
        prepend(a, prepend(b, out)) == prepend(a.union(b), out),
{
    if let Ok((t, v)) = out {
        assert(a.union(b.union(t)) =~= a.union(b).union(t));
    }
}

/// Repetition of a rule lets two of its derivations stand side by side: when a
/// right-hand side holds the repetition `F*` of a reference to the rule `F`,
/// every terminal of FIRST of `F` (the empty marker aside) is in the
/// non-strict FOLLOW of `F`.
pub proof fn lemma_self_repetition_follow(g: Rules, f: Seq<char>, j: int, i: int)
    requires
        0 <= j < g.len(),
        g[j].1 is Sequence,
        0 <= i < arity(g[j].1),
        operands(g[j].1)[i] matches Expr::Repeat(body) && is_rule_named(*body, f),
        first_result(g, f) is Ok,
        follow_result(g, f, false) is Ok,
    ensures
        first_result(g, f)->Ok_0.remove(eps()).subset_of(follow_result(g, f, false)->Ok_0),
{
    let name = g[j].0;
    let rhs = g[j].1;
    lemma_follow_rules_includes(g, f, 0, j, Set::empty(), false);
    let prods = Set::<Seq<char>>::empty().insert(name);
    let lme = lemma_follow_seq_reaches(g, f, name, rhs, 0, false, i, prods, false);
    let x = operands(rhs)[i];
    if let Expr::Repeat(body) = x {
        assert(ends_in_rule(*body, f));
        assert(ends_in_rule(x, f));
        assert(first_fresh(g, *body) == first_result(g, f));
        assert(first_result(g, f)->Ok_0.remove(eps()).subset_of(
            follow_seq(g, f, name, rhs, i, lme, prods, false)->Ok_0,
        ));
    }
}

/// FOLLOW holds terminals only: the empty marker is never in it.
pub proof fn lemma_follow_has_no_marker(g: Rules, name: Seq<char>, strict: bool)
    ensures
        follow_result(g, name, strict) matches Ok(s) ==> !s.contains(eps()),
{
    lemma_rules_no_marker(g, name, 0, Set::empty(), strict);
}

proof fn lemma_of_no_marker(g: Rules, of: Seq<char>, parent: Seq<char>, e: Expr, prods: Names, strict: bool)
    ensures
        follow_of(g, of, parent, e, prods, strict) matches Ok(s) ==> !s.contains(eps()),
    decreases unvisited(g, prods), 1int, e, arity(e) + 2,
{
    match e {
        Expr::Choice(_) => lemma_alt_no_marker(g, of, parent, e, 0, prods, strict),
        Expr::Sequence(_) => lemma_seq_no_marker(g, of, parent, e, 0, false, prods, strict),
        _ => {},
    }
}

proof fn lemma_alt_no_marker(
    g: Rules,
    of: Seq<char>,
    parent: Seq<char>,
    e: Expr,
    i: int,
    prods: Names,
    strict: bool,
)
    ensures
        follow_alt(g, of, parent, e, i, prods, strict) matches Ok(s) ==> !s.contains(eps()),
    decreases unvisited(g, prods), 1int, e, arity(e) - i + 1,
{
    if let Expr::Choice(v) = e {
        if 0 <= i < v.len() {
            lemma_operand_decreases(e, i);
            lemma_of_no_marker(g, of, parent, v@[i], prods, strict);
            lemma_alt_no_marker(g, of, parent, e, i + 1, prods, strict);
        }
    }
}

proof fn lemma_seq_no_marker(
    g: Rules,
    of: Seq<char>,
    parent: Seq<char>,
    e: Expr,
    i: int,
    after_nullable: bool,
    prods: Names,
    strict: bool,
)
    ensures
        follow_seq(g, of, parent, e, i, after_nullable, prods, strict) matches Ok(s) ==> !s.contains(
            eps(),
        ),
    decreases unvisited(g, prods), 1int, e, arity(e) - i + 1,
{
    if let Expr::Sequence(v) = e {
        if 0 <= i < v.len() {
            let x = v@[i];
            if !(after_nullable || ends_in_rule(x, of)) {
                lemma_seq_no_marker(g, of, parent, e, i + 1, after_nullable, prods, strict);
            } else {
                lemma_rules_no_marker(g, parent, 0, prods, strict);
                if i + 1 < v.len() {
                    let next = v@[i + 1];
                    if let Ok(fs) = first_fresh(g, next) {
                        let lme = fs.contains(eps()) || nullable(g, next, Set::empty());
                        lemma_seq_no_marker(g, of, parent, e, i + 1, lme, prods, strict);
                    }
                }
            }
        }
    }
}

proof fn lemma_rules_no_marker(g: Rules, of: Seq<char>, j: int, prods: Names, strict: bool)
    ensures
        follow_rules(g, of, j, prods, strict) matches Ok(s) ==> !s.contains(eps()),
    decreases unvisited(g, prods), 0int, arbitrary::<Expr>(), g.len() - j,
{
    if 0 <= j < g.len() {
        if !prods.contains(g[j].0) {
            lemma_visit(g, prods, g[j].0);
            lemma_of_no_marker(g, of, g[j].0, g[j].1, prods.insert(g[j].0), strict);
        }
        lemma_rules_no_marker(g, of, j + 1, prods, strict);
    }
}

/// Strict mode only leaves contributions out: where both modes succeed,
/// strict FOLLOW is part of non-strict FOLLOW.
pub proof fn lemma_strict_follow_within(g: Rules, name: Seq<char>)
    ensures
        follow_result(g, name, true) is Ok && follow_result(g, name, false) is Ok ==> follow_result(
            g,
            name,
            true,
        )->Ok_0.subset_of(follow_result(g, name, false)->Ok_0),
{
    lemma_rules_strict_within(g, name, 0, Set::empty());
}

proof fn lemma_of_strict_within(g: Rules, of: Seq<char>, parent: Seq<char>, e: Expr, prods: Names)
    ensures
        follow_of(g, of, parent, e, prods, true) is Ok && follow_of(g, of, parent, e, prods, false) is Ok
            ==> follow_of(g, of, parent, e, prods, true)->Ok_0.subset_of(
            follow_of(g, of, parent, e, prods, false)->Ok_0,
        ),
    decreases unvisited(g, prods), 1int, e, arity(e) + 2,
{
    match e {
        Expr::Choice(_) => lemma_alt_strict_within(g, of, parent, e, 0, prods),
        Expr::Sequence(_) => lemma_seq_strict_within(g, of, parent, e, 0, false, prods),
        _ => {},
    }
}

proof fn lemma_alt_strict_within(g: Rules, of: Seq<char>, parent: Seq<char>, e: Expr, i: int, prods: Names)
    ensures
        follow_alt(g, of, parent, e, i, prods, true) is Ok && follow_alt(g, of, parent, e, i, prods, false)
            is Ok ==> follow_alt(g, of, parent, e, i, prods, true)->Ok_0.subset_of(
            follow_alt(g, of, parent, e, i, prods, false)->Ok_0,
        ),
    decreases unvisited(g, prods), 1int, e, arity(e) - i + 1,
{
    if let Expr::Choice(v) = e {
        if 0 <= i < v.len() {
            lemma_operand_decreases(e, i);
            lemma_of_strict_within(g, of, parent, v@[i], prods);
            lemma_alt_strict_within(g, of, parent, e, i + 1, prods);
        }
    }
}

proof fn lemma_seq_strict_within(
    g: Rules,
    of: Seq<char>,
    parent: Seq<char>,
    e: Expr,
    i: int,
    after_nullable: bool,
    prods: Names,
)
    ensures
        follow_seq(g, of, parent, e, i, after_nullable, prods, true) is Ok && follow_seq(
            g,
            of,
            parent,
            e,
            i,
            after_nullable,
            prods,
            false,
        ) is Ok ==> follow_seq(g, of, parent, e, i, after_nullable, prods, true)->Ok_0.subset_of(
            follow_seq(g, of, parent, e, i, after_nullable, prods, false)->Ok_0,
        ),
    decreases unvisited(g, prods), 1int, e, arity(e) - i + 1,
{
    if let Expr::Sequence(v) = e {
        if 0 <= i < v.len() {
            let x = v@[i];
            if !(after_nullable || ends_in_rule(x, of)) {
                lemma_seq_strict_within(g, of, parent, e, i + 1, after_nullable, prods);
            } else {
                lemma_rules_strict_within(g, parent, 0, prods);
                if i + 1 < v.len() {
                    let next = v@[i + 1];
                    if let Ok(fs) = first_fresh(g, next) {
                        let lme = fs.contains(eps()) || nullable(g, next, Set::empty());
                        lemma_seq_strict_within(g, of, parent, e, i + 1, lme, prods);
                    }
                }
            }
        }
    }
}

proof fn lemma_rules_strict_within(g: Rules, of: Seq<char>, j: int, prods: Names)
    ensures
        follow_rules(g, of, j, prods, true) is Ok && follow_rules(g, of, j, prods, false) is Ok
            ==> follow_rules(g, of, j, prods, true)->Ok_0.subset_of(
            follow_rules(g, of, j, prods, false)->Ok_0,
        ),
    decreases unvisited(g, prods), 0int, arbitrary::<Expr>(), g.len() - j,
{
    if 0 <= j < g.len() {
        if !prods.contains(g[j].0) {
            lemma_visit(g, prods, g[j].0);
            lemma_of_strict_within(g, of, g[j].0, g[j].1, prods.insert(g[j].0));
        }
        lemma_rules_strict_within(g, of, j + 1, prods);
    }
}

/// FOLLOW over the rules from `m` on includes what the rule `j` contributes.
pub(crate) proof fn lemma_follow_rules_includes(g: Rules, of: Seq<char>, m: int, j: int, prods: Names, strict: bool)
    requires
        0 <= m <= j < g.len(),
        !prods.contains(g[j].0),
        follow_rules(g, of, m, prods, strict) is Ok,
    ensures
        follow_of(g, of, g[j].0, g[j].1, prods.insert(g[j].0), strict) is Ok,
        follow_of(g, of, g[j].0, g[j].1, prods.insert(g[j].0), strict)->Ok_0.subset_of(
            follow_rules(g, of, m, prods, strict)->Ok_0,
        ),
    decreases j - m,
{
    if m < j {
        lemma_follow_rules_includes(g, of, m + 1, j, prods, strict);
    }
}

/// The scan of a sequence that succeeds from position `k` reaches position `i`,
/// in some state, with a result that is part of the whole.
pub(crate) proof fn lemma_follow_seq_reaches(
    g: Rules,
    of: Seq<char>,
    parent: Seq<char>,
    e: Expr,
    k: int,
    after_nullable: bool,
    i: int,
    prods: Names,
    strict: bool,
) -> (lme: bool)
    requires
        e is Sequence,
        0 <= k <= i < arity(e),
        follow_seq(g, of, parent, e, k, after_nullable, prods, strict) is Ok,
    ensures
        follow_seq(g, of, parent, e, i, lme, prods, strict) is Ok,
        follow_seq(g, of, parent, e, i, lme, prods, strict)->Ok_0.subset_of(
            follow_seq(g, of, parent, e, k, after_nullable, prods, strict)->Ok_0,
        ),
    decreases i - k,
{
    if k == i {
        after_nullable
    } else {
        let v = operands(e);
        let x = v[k];
        if !(after_nullable || ends_in_rule(x, of)) {
            lemma_follow_seq_reaches(g, of, parent, e, k + 1, after_nullable, i, prods, strict)
        } else {
            let next = v[k + 1];
            let fs = first_fresh(g, next)->Ok_0;
            let lme2 = fs.contains(eps()) || nullable(g, next, Set::empty());
            lemma_follow_seq_reaches(g, of, parent, e, k + 1, lme2, i, prods, strict)
        }
    }
}

/// The first `n` values of `s` with repeats left out, in order of first occurrence.
pub open spec fn distinct_prefix(s: Seq<Seq<char>>, n: int) -> Seq<Seq<char>>
    decreases n,
{
    if n <= 0 {
        Seq::empty()
    } else {
        let before = distinct_prefix(s, n - 1);
        if before.contains(s[n - 1]) {
            before
        } else {
            before.push(s[n - 1])
        }
    }
}

/// No value appears twice in `distinct_prefix(s, n)`.
pub(crate) proof fn lemma_distinct_prefix_unique(s: Seq<Seq<char>>, n: int)
    ensures
        distinct_prefix(s, n).no_duplicates(),
    decreases n,
{
    if n > 0 {
        lemma_distinct_prefix_unique(s, n - 1);
    }
}

pub(crate) proof fn lemma_distinct_prefix_set(s: Seq<Seq<char>>, n: int)
    requires
        0 <= n <= s.len(),
    ensures
        distinct_prefix(s, n).to_set() == s.take(n).to_set(),
    decreases n,
{
    if n == 0 {
        assert(s.take(0).to_set() =~= Set::<Seq<char>>::empty());
        assert(Seq::<Seq<char>>::empty().to_set() =~= Set::<Seq<char>>::empty());
    } else {
        lemma_distinct_prefix_set(s, n - 1);
        let before = distinct_prefix(s, n - 1);
        before.lemma_push_to_set_commute(s[n - 1]);
        assert(s.take(n) =~= s.take(n - 1).push(s[n - 1]));
        s.take(n - 1).lemma_push_to_set_commute(s[n - 1]);
        assert(distinct_prefix(s, n).to_set() =~= s.take(n).to_set());
    }
}

pub(crate) proof fn lemma_find_rule(g: Rules, n: Seq<char>, i: int)
    requires
        0 <= i,
    ensures
        find_rule(g, n, i) >= 0 ==> i <= find_rule(g, n, i) < g.len() && g[find_rule(g, n, i)].0 == n,
        find_rule(g, n, i) < 0 ==> forall|k: int| i <= k < g.len() ==> #[trigger] g[k].0 != n,
        find_rule(g, n, i) >= 0 ==> forall|k: int| i <= k < find_rule(g, n, i) ==> #[trigger] g[k].0 != n,
    decreases g.len() - i,
{
    if i < g.len() && g[i].0 != n {
        lemma_find_rule(g, n, i + 1);
    }
}

/// A declared name is among `names(g)`, and adding it to a set that lacks it
/// leaves fewer names unvisited.
pub(crate) proof fn lemma_visit(g: Rules, vis: Names, n: Seq<char>)
    requires
        lookup(g, n) is Some || exists|j: int| 0 <= j < g.len() && g[j].0 == n,
        !vis.contains(n),
    ensures
        unvisited(g, vis.insert(n)) < unvisited(g, vis),
{
    lemma_find_rule(g, n, 0);
    let j = if lookup(g, n) is Some {
        find_rule(g, n, 0)
    } else {
        choose|j: int| 0 <= j < g.len() && g[j].0 == n
    };
    let keys = g.map_values(|p: (Seq<char>, Expr)| p.0);
    assert(keys[j] == n);
    assert(names(g).contains(n));
    vstd::seq_lib::seq_to_set_is_finite(keys);
    let d = names(g).difference(vis);
    vstd::set_lib::lemma_set_subset_finite(names(g), d);
    assert(names(g).difference(vis.insert(n)) =~= d.remove(n));
}

/// Adding names never leaves more names unvisited.
pub(crate) proof fn lemma_visit_more(g: Rules, vis: Names, more: Names)
    ensures
        unvisited(g, vis.union(more)) <= unvisited(g, vis),
{
    let keys = g.map_values(|p: (Seq<char>, Expr)| p.0);
    vstd::seq_lib::seq_to_set_is_finite(keys);
    let d = names(g).difference(vis);
    vstd::set_lib::lemma_set_subset_finite(names(g), d);
    vstd::set_lib::lemma_len_subset(names(g).difference(vis.union(more)), d);
}

#[via_fn]
proof fn nullable_decreases(g: Rules, e: Expr, seen: Names) {
    if let Expr::Rule(r) = e {
        if !seen.contains(r@) && lookup(g, r@) is Some {
            lemma_visit(g, seen, r@);
        }
    }
}

#[via_fn]
proof fn is_alias_decreases(g: Rules, e: Expr, name: Seq<char>, seen: Names) {
    if let Expr::Rule(r) = e {
        if !seen.contains(name) && lookup(g, name) is Some {
            lemma_visit(g, seen, name);
        }
    }
}

#[via_fn]
proof fn first_of_decreases(g: Rules, e: Expr, vis: Names) {
    if let Expr::Rule(r) = e {
        if !vis.contains(r@) && lookup(g, r@) is Some {
            lemma_visit(g, vis, r@);
        }
    }
}

#[via_fn]
proof fn first_seq_decreases(g: Rules, e: Expr, i: int, vis: Names) {
    assert forall|more: Names| unvisited(g, #[trigger] vis.union(more)) <= unvisited(g, vis) by {
        lemma_visit_more(g, vis, more);
    }
}

#[via_fn]
proof fn first_alt_decreases(g: Rules, e: Expr, i: int, vis: Names) {
    assert forall|more: Names| unvisited(g, #[trigger] vis.union(more)) <= unvisited(g, vis) by {
        lemma_visit_more(g, vis, more);
    }
}

#[via_fn]
proof fn follow_rules_decreases(g: Rules, of: Seq<char>, j: int, prods: Names, strict: bool) {
    if 0 <= j < g.len() && !prods.contains(g[j].0) {
        lemma_visit(g, prods, g[j].0);
    }
}

} // verus!
