use truthful::Instruction::{
    And, Argument, Biconditional, Conditional, Equals, False, Not, Or, True, Xor,
};
use truthful::{Evaluation, Instruction, Table};

fn var(name: &str) -> Instruction {
    Argument(name.to_string())
}

fn names(header: &[&str]) -> Vec<String> {
    header.iter().map(|h| h.to_string()).collect()
}

#[test]
fn evaluate_exclusive_or() {
    let e = Xor(Box::new(var("a")), Box::new(var("b")));
    let table = e.evaluate().unwrap();
    assert_eq!(table.header, names(&["a", "b", "eval"]));
    assert_eq!(
        table.rows,
        vec![
            vec![false, false, false],
            vec![false, true, true],
            vec![true, false, true],
            vec![true, true, false],
        ]
    );
}

#[test]
fn evaluate_constants() {
    let table = True.evaluate().unwrap();
    assert_eq!(table.header, names(&["eval"]));
    assert_eq!(table.rows, vec![vec![true]]);
    let table = False.evaluate().unwrap();
    assert_eq!(table.header, names(&["eval"]));
    assert_eq!(table.rows, vec![vec![false]]);
}

#[test]
fn evaluate_one_name() {
    let table = var("p").evaluate().unwrap();
    assert_eq!(table.header, names(&["p", "eval"]));
    assert_eq!(table.rows, vec![vec![false, false], vec![true, true]]);
    let table = Not(Box::new(var("p"))).evaluate().unwrap();
    assert_eq!(table.rows, vec![vec![false, true], vec![true, false]]);
}

fn results(e: Instruction) -> Vec<bool> {
    let table = e.evaluate().unwrap();
    table.rows.iter().map(|row| *row.last().unwrap()).collect()
}

#[test]
fn evaluate_each_connective() {
    let a = || Box::new(var("a"));
    let b = || Box::new(var("b"));
    assert_eq!(results(And(a(), b())), vec![false, false, false, true]);
    assert_eq!(results(Or(a(), b())), vec![false, true, true, true]);
    assert_eq!(results(Xor(a(), b())), vec![false, true, true, false]);
    assert_eq!(results(Conditional(a(), b())), vec![true, true, false, true]);
    assert_eq!(results(Biconditional(a(), b())), vec![true, false, false, true]);
    assert_eq!(results(Equals(a(), b())), vec![true, false, false, true]);
}

#[test]
fn evaluate_puts_names_in_order() {
    let e = And(
        Box::new(var("b")),
        Box::new(Or(Box::new(var("c")), Box::new(var("a")))),
    );
    let table = e.evaluate().unwrap();
    assert_eq!(table.header, names(&["a", "b", "c", "eval"]));
    assert_eq!(
        table.rows,
        vec![
            vec![false, false, false, false],
            vec![false, false, true, false],
            vec![false, true, false, false],
            vec![false, true, true, true],
            vec![true, false, false, false],
            vec![true, false, true, false],
            vec![true, true, false, true],
            vec![true, true, true, true],
        ]
    );
}

#[test]
fn evaluate_orders_names_by_code_point() {
    let e = Or(
        Box::new(var("b")),
        Box::new(Or(Box::new(var("B")), Box::new(var("ab")))),
    );
    let table = e.evaluate().unwrap();
    assert_eq!(table.header, names(&["B", "ab", "b", "eval"]));
}

#[test]
fn evaluate_counts_a_name_once() {
    let e = And(Box::new(var("a")), Box::new(Not(Box::new(var("a")))));
    let table = e.evaluate().unwrap();
    assert_eq!(table.header, names(&["a", "eval"]));
    assert_eq!(table.rows, vec![vec![false, false], vec![true, false]]);
}

#[test]
fn evaluate_is_the_same_each_time() {
    let e = Conditional(
        Box::new(Xor(Box::new(var("q")), Box::new(var("p")))),
        Box::new(var("r")),
    );
    let first = e.evaluate().unwrap();
    let second = e.evaluate().unwrap();
    let third = e.clone().evaluate().unwrap();
    assert_eq!(first, second);
    assert_eq!(first, third);
    let mut sorted = first.rows.clone();
    sorted.sort();
    assert_eq!(first.rows, sorted);
    let mut header = first.header.clone();
    assert_eq!(header.pop(), Some("eval".to_string()));
    let mut in_order = header.clone();
    in_order.sort();
    assert_eq!(header, in_order);
}

#[test]
fn evaluate_has_a_row_for_each_assignment() {
    let mut e = True;
    for n in 0..6usize {
        let table = e.evaluate().unwrap();
        assert_eq!(table.header.len(), n + 1);
        assert_eq!(table.rows.len(), 1 << n);
        for row in &table.rows {
            assert_eq!(row.len(), n + 1);
        }
        let mut assignments: Vec<Vec<bool>> = table
            .rows
            .iter()
            .map(|row| row[..n].to_vec())
            .collect();
        assignments.dedup();
        assert_eq!(assignments.len(), 1 << n);
        e = Or(Box::new(e), Box::new(var(&format!("x{n}"))));
    }
}

#[test]
fn is_enumerable_up_to_the_machine_limit() {
    let mut e = True;
    for n in 0..24usize {
        let fits = (1..=n).try_fold(1usize, |p, k| p.checked_mul(k)).is_some();
        assert_eq!(e.is_enumerable(), fits);
        e = And(Box::new(e), Box::new(var(&format!("x{n}"))));
    }
    assert!(!e.is_enumerable());
}

#[test]
fn into_table_of_nothing_is_empty() {
    let table = Evaluation::into_table(vec![]);
    assert_eq!(
        table,
        Table {
            header: vec![],
            rows: vec![]
        }
    );
}

#[test]
fn into_table_sorts_the_rows() {
    let evaluations = vec![
        Evaluation::new(vec![("x", true), ("y", false)], true),
        Evaluation::new(vec![("x", false), ("y", true)], false),
        Evaluation::new(vec![("x", true), ("y", false)], false),
        Evaluation::new(vec![("x", false), ("y", false)], true),
    ];
    assert!(evaluations[0].result());
    assert_eq!(evaluations[1].values(), &vec![("x", false), ("y", true)]);
    let table = Evaluation::into_table(evaluations);
    assert_eq!(table.header, names(&["x", "y", "eval"]));
    assert_eq!(
        table.rows,
        vec![
            vec![false, false, true],
            vec![false, true, false],
            vec![true, false, false],
            vec![true, false, true],
        ]
    );
}

#[test]
fn tables_are_equal_by_header_and_rows() {
    let a = var("a").evaluate().unwrap();
    let b = var("b").evaluate().unwrap();
    let again = Not(Box::new(Not(Box::new(var("a"))))).evaluate().unwrap();
    assert!(a == again);
    assert!(a != b);
    assert!(a != Not(Box::new(var("a"))).evaluate().unwrap());
    assert!(a != True.evaluate().unwrap());
}

#[test]
fn kinds_of_expression() {
    let a = var("a");
    assert!(True.eq_true() && !True.eq_false());
    assert!(False.eq_false() && !False.eq_true());
    assert!(!a.eq_true() && !a.eq_false() && !a.is_not() && !a.is_and() && !a.is_or());
    let not = Not(Box::new(a.clone()));
    assert!(not.is_not() && !not.is_and() && !not.is_or());
    let and = And(Box::new(a.clone()), Box::new(a.clone()));
    assert!(and.is_and() && !and.is_or() && !and.is_not());
    let or = Or(Box::new(a.clone()), Box::new(a.clone()));
    assert!(or.is_or() && !or.is_and() && !or.is_not());
}

#[test]
fn expressions_are_equal_by_shape_and_names() {
    let a = var("a");
    assert_eq!(a, a.clone());
    assert_ne!(a, var("b"));
    let l = And(Box::new(var("a")), Box::new(var("b")));
    let r = And(Box::new(var("b")), Box::new(var("a")));
    assert_eq!(l, l.clone());
    assert_ne!(l, r);
    assert_ne!(l, Or(Box::new(var("a")), Box::new(var("b"))));
    assert_ne!(
        Biconditional(Box::new(var("a")), Box::new(var("b"))),
        Equals(Box::new(var("a")), Box::new(var("b")))
    );
}

#[test]
fn try_evaluate_where_the_names_can_be_enumerated() {
    let e = Xor(Box::new(var("a")), Box::new(var("b")));
    assert_eq!(e.try_evaluate(), Some(e.evaluate().unwrap()));
    let mut wide = True;
    for n in 0..24usize {
        wide = And(Box::new(wide), Box::new(var(&format!("x{n}"))));
    }
    assert_eq!(wide.try_evaluate(), None);
}
