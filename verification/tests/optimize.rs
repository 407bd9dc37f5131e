use truthful::context::Context;
use truthful::Instruction;
use truthful::Instruction::{
    And, Argument, Biconditional, Conditional, Equals, False, Not, Or, True, Xor,
};

fn var(name: &str) -> Instruction {
    Argument(name.to_string())
}

fn not(x: Instruction) -> Instruction {
    Not(Box::new(x))
}

fn and(l: Instruction, r: Instruction) -> Instruction {
    And(Box::new(l), Box::new(r))
}

fn or(l: Instruction, r: Instruction) -> Instruction {
    Or(Box::new(l), Box::new(r))
}

fn xor(l: Instruction, r: Instruction) -> Instruction {
    Xor(Box::new(l), Box::new(r))
}

#[test]
fn optimize_leaves_leaves() {
    assert_eq!(True.optimize(), True);
    assert_eq!(False.optimize(), False);
    assert_eq!(var("a").optimize(), var("a"));
}

#[test]
fn optimize_drops_double_negation() {
    assert_eq!(not(not(var("a"))).optimize(), var("a"));
    assert_eq!(not(not(not(var("a")))).optimize(), not(var("a")));
}

#[test]
fn optimize_negates_constants() {
    assert_eq!(not(True).optimize(), False);
    assert_eq!(not(False).optimize(), True);
    assert_eq!(not(var("a")).optimize(), not(var("a")));
}

#[test]
fn optimize_finds_tautology() {
    assert_eq!(or(var("a"), not(var("a"))).optimize(), True);
    assert_eq!(or(not(var("a")), var("a")).optimize(), True);
}

#[test]
fn optimize_finds_contradiction() {
    assert_eq!(and(var("a"), not(var("a"))).optimize(), False);
    assert_eq!(and(not(var("a")), var("a")).optimize(), False);
}

#[test]
fn optimize_self_implication() {
    let e = Conditional(Box::new(var("a")), Box::new(var("a")));
    assert_eq!(e.optimize(), True);
}

#[test]
fn optimize_absorbs() {
    assert_eq!(or(and(var("a"), var("b")), var("a")).optimize(), var("a"));
    assert_eq!(or(and(var("a"), var("b")), var("b")).optimize(), var("b"));
    assert_eq!(or(var("a"), and(var("a"), var("b"))).optimize(), var("a"));
    assert_eq!(or(var("b"), and(var("a"), var("b"))).optimize(), var("b"));
}

#[test]
fn optimize_conjunctions() {
    assert_eq!(and(True, True).optimize(), True);
    assert_eq!(and(True, var("b")).optimize(), var("b"));
    assert_eq!(and(var("a"), True).optimize(), var("a"));
    assert_eq!(and(var("a"), False).optimize(), False);
    assert_eq!(and(False, var("b")).optimize(), False);
    assert_eq!(and(var("a"), var("a")).optimize(), var("a"));
    assert_eq!(and(var("a"), var("b")).optimize(), and(var("a"), var("b")));
    assert_eq!(
        and(or(var("a"), var("b")), or(var("b"), var("a"))).optimize(),
        or(var("a"), var("b"))
    );
}

#[test]
fn optimize_disjunctions() {
    assert_eq!(or(True, var("b")).optimize(), True);
    assert_eq!(or(var("a"), True).optimize(), True);
    assert_eq!(or(False, var("b")).optimize(), var("b"));
    assert_eq!(or(var("a"), False).optimize(), var("a"));
    assert_eq!(or(var("a"), var("a")).optimize(), var("a"));
    assert_eq!(or(var("a"), var("b")).optimize(), or(var("a"), var("b")));
    assert_eq!(
        or(and(var("a"), var("b")), and(var("b"), var("a"))).optimize(),
        and(var("a"), var("b"))
    );
}

#[test]
fn optimize_exclusive_or() {
    assert_eq!(xor(var("a"), var("a")).optimize(), False);
    assert_eq!(xor(False, var("a")).optimize(), var("a"));
    assert_eq!(xor(var("a"), False).optimize(), var("a"));
    assert_eq!(xor(True, var("a")).optimize(), not(var("a")));
    assert_eq!(xor(var("a"), True).optimize(), not(var("a")));
    assert_eq!(xor(True, False).optimize(), True);
    assert_eq!(
        xor(var("a"), var("b")).optimize(),
        and(or(var("a"), var("b")), not(and(var("a"), var("b"))))
    );
}

#[test]
fn optimize_rewrites_implication() {
    let e = Conditional(Box::new(var("a")), Box::new(var("b")));
    assert_eq!(e.optimize(), or(not(var("a")), var("b")));
    let e = Conditional(Box::new(False), Box::new(var("b")));
    assert_eq!(e.optimize(), True);
    let e = Conditional(Box::new(True), Box::new(var("b")));
    assert_eq!(e.optimize(), var("b"));
}

#[test]
fn optimize_rewrites_equivalence() {
    let expected = or(
        and(var("a"), var("b")),
        and(not(var("a")), not(var("b"))),
    );
    let e = Biconditional(Box::new(var("a")), Box::new(var("b")));
    assert_eq!(e.optimize(), expected);
    let e = Equals(Box::new(var("a")), Box::new(var("b")));
    assert_eq!(e.optimize(), expected);
    let e = Equals(Box::new(var("a")), Box::new(var("a")));
    assert_eq!(e.optimize(), True);
}

#[test]
fn optimize_does_not_merge_over_different_names() {
    // `a` and `a ^ (b v !b)` agree wherever `a` has a value, but the second
    // holds the name `b`: they are kept apart.
    let wide = and(var("a"), or(var("b"), not(var("c"))));
    let e = or(var("d"), wide.clone());
    assert_eq!(e.optimize(), or(var("d"), wide));
}

#[test]
fn optimize_keeps_the_truth_table() {
    let samples = vec![
        xor(var("a"), var("b")),
        Conditional(Box::new(var("a")), Box::new(var("b"))),
        Biconditional(Box::new(var("a")), Box::new(xor(var("b"), var("c")))),
        and(or(var("a"), var("b")), not(and(var("c"), var("a")))),
        not(not(or(var("a"), var("b")))),
    ];
    for e in samples {
        let before = e.evaluate().unwrap();
        let after = e.clone().optimize().evaluate().unwrap();
        assert_eq!(before, after);
    }
}

#[test]
fn optimize_keeps_the_value_where_names_go() {
    // The contradiction loses its name; every row of the table before says
    // what the one row after says.
    let e = and(var("a"), not(var("a")));
    let before = e.evaluate().unwrap();
    let after = e.optimize().evaluate().unwrap();
    assert_eq!(after.header, vec!["eval".to_string()]);
    assert_eq!(after.rows, vec![vec![false]]);
    for row in before.rows {
        assert_eq!(row.last(), Some(&false));
    }
}

#[test]
fn optimize_twice_is_optimize_once() {
    let samples = vec![
        xor(var("a"), var("b")),
        Conditional(Box::new(var("a")), Box::new(var("b"))),
        Equals(Box::new(var("a")), Box::new(not(var("b")))),
        or(and(var("a"), var("b")), var("a")),
        not(not(not(var("a")))),
        xor(xor(True, not(var("a"))), var("b")),
    ];
    for e in samples {
        let once = e.optimize();
        let twice = once.clone().optimize();
        assert_eq!(once, twice);
    }
}

#[test]
fn optimize_twice_differs_after_a_double_negation() {
    let e = xor(True, not(var("a")));
    let once = e.optimize();
    assert_eq!(once, not(not(var("a"))));
    assert_eq!(once.optimize(), var("a"));
}

#[test]
fn check_equivalence_compares_tables() {
    let mut context = Context::default();
    let a = var("a");
    let b = var("b");
    assert!(context.check_equivalence(&a, &a.clone()));
    assert!(!context.check_equivalence(&a, &b));
    assert!(context.check_equivalence(&or(a.clone(), b.clone()), &or(b.clone(), a.clone())));
    assert!(context.check_equivalence(
        &not(and(a.clone(), b.clone())),
        &or(not(a.clone()), not(b.clone()))
    ));
    assert!(!context.check_equivalence(&a, &and(a.clone(), or(b.clone(), not(b.clone())))));
    assert!(context.check_equivalence(&True, &not(False)));
    assert!(!context.check_equivalence(&True, &False));
    // asked again, from the cache
    assert!(!context.check_equivalence(&a, &b));
}

#[test]
fn try_optimize_where_the_names_can_be_enumerated() {
    let e = or(var("a"), not(var("a")));
    assert_eq!(e.try_optimize(), Ok(True));
    let mut wide = not(not(var("x")));
    for n in 0..24usize {
        wide = and(wide, var(&format!("x{n}")));
    }
    assert_eq!(wide.clone().try_optimize(), Err(wide));
}
