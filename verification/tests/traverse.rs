use truthful::traverser::{Arguments, Context, Evaluator};
use truthful::Instruction;
use truthful::Instruction::{And, Argument, Conditional, False, Not, Or, True, Xor};

fn var(name: &str) -> Instruction {
    Argument(name.to_string())
}

#[test]
fn arguments_come_right_to_left() {
    let e = And(
        Box::new(var("a")),
        Box::new(Or(
            Box::new(Not(Box::new(var("b")))),
            Box::new(Xor(Box::new(True), Box::new(var("c")))),
        )),
    );
    let mut args = Arguments::from(&e);
    assert_eq!(args.next(), Some("c"));
    assert_eq!(args.next(), Some("b"));
    assert_eq!(args.next(), Some("a"));
    assert_eq!(args.next(), None);
    assert_eq!(args.next(), None);
}

#[test]
fn arguments_come_once_per_leaf() {
    let e = Or(Box::new(var("a")), Box::new(Not(Box::new(var("a")))));
    let mut args = Arguments::from(&e);
    assert_eq!(args.next(), Some("a"));
    assert_eq!(args.next(), Some("a"));
    assert_eq!(args.next(), None);
    let mut none = Arguments::from(&False);
    assert_eq!(none.next(), None);
}

#[test]
fn names_are_in_order_and_once() {
    let e = Or(
        Box::new(And(Box::new(var("q")), Box::new(var("p")))),
        Box::new(Conditional(Box::new(var("q")), Box::new(var("a")))),
    );
    assert_eq!(Arguments::names(&e), vec!["a", "p", "q"]);
    assert_eq!(Arguments::names(&True), Vec::<&str>::new());
}

#[test]
fn combinations_are_the_selections_in_order() {
    let e = And(
        Box::new(var("c")),
        Box::new(Or(Box::new(var("a")), Box::new(var("b")))),
    );
    let expected: Vec<Vec<&str>> = vec![
        vec![],
        vec!["a"],
        vec!["a", "b"],
        vec!["a", "b", "c"],
        vec!["a", "c"],
        vec!["b"],
        vec!["b", "c"],
        vec!["c"],
    ];
    assert_eq!(Arguments::combinations(&e), expected);
}

#[test]
fn combinations_of_few_names() {
    let none: Vec<Vec<&str>> = vec![vec![]];
    assert_eq!(Arguments::combinations(&True), none);
    let one: Vec<Vec<&str>> = vec![vec![], vec!["x"]];
    assert_eq!(Arguments::combinations(&Not(Box::new(var("x")))), one);
}

#[test]
fn combinations_are_two_to_the_number_of_names() {
    let mut e = var("n0");
    for n in 1..8usize {
        let combinations = Arguments::combinations(&e);
        assert_eq!(combinations.len(), 1 << n);
        let mut sorted = combinations.clone();
        sorted.sort();
        sorted.dedup();
        assert_eq!(combinations, sorted);
        assert_eq!(combinations.iter().filter(|c| c.len() == 1).count(), n);
        assert_eq!(combinations.iter().filter(|c| c.len() == n).count(), 1);
        e = Xor(Box::new(var(&format!("n{n}"))), Box::new(e));
    }
}

#[test]
fn context_starts_false() {
    let e = And(Box::new(var("b")), Box::new(var("a")));
    let context = Context::from_iter(Arguments::from(&e));
    assert_eq!(context.get("a"), Some(false));
    assert_eq!(context.get("b"), Some(false));
    assert_eq!(context.get("c"), None);
    assert_eq!(context.entries(), vec![("a", false), ("b", false)]);
}

#[test]
fn context_insert_gives_the_old_value() {
    let e = And(Box::new(var("b")), Box::new(var("d")));
    let mut context = Context::from_iter(Arguments::from(&e));
    assert_eq!(context.insert("b", true), Some(false));
    assert_eq!(context.insert("b", true), Some(true));
    assert_eq!(context.insert("c", true), None);
    assert_eq!(context.insert("a", false), None);
    assert_eq!(context.insert("e", true), None);
    assert_eq!(context.get("c"), Some(true));
    assert_eq!(
        context.entries(),
        vec![
            ("a", false),
            ("b", true),
            ("c", true),
            ("d", false),
            ("e", true)
        ]
    );
    context.reset_to_false();
    assert_eq!(
        context.entries(),
        vec![
            ("a", false),
            ("b", false),
            ("c", false),
            ("d", false),
            ("e", false)
        ]
    );
}

#[test]
fn run_with_context_takes_the_values() {
    let e = Conditional(Box::new(var("a")), Box::new(var("b")));
    let mut context = Context::from_iter(Arguments::from(&e));
    assert_eq!(Evaluator::run_with_context(&e, &context), Ok(true));
    context.insert("a", true);
    assert_eq!(Evaluator::run_with_context(&e, &context), Ok(false));
    context.insert("b", true);
    assert_eq!(Evaluator::run_with_context(&e, &context), Ok(true));
}

#[test]
fn run_with_context_fails_on_a_name_without_value() {
    let known = var("a");
    let mut context = Context::from_iter(Arguments::from(&known));
    let missing = "invalid evaluator context".to_string();
    assert_eq!(
        Evaluator::run_with_context(&var("x"), &context),
        Err(missing.clone())
    );
    let e = Xor(Box::new(var("a")), Box::new(var("x")));
    assert_eq!(Evaluator::run_with_context(&e, &context), Err(missing.clone()));
    let e = Not(Box::new(var("x")));
    assert_eq!(Evaluator::run_with_context(&e, &context), Err(missing.clone()));
    // the right operand is not looked at where the left one decides
    let e = And(Box::new(var("a")), Box::new(var("x")));
    assert_eq!(Evaluator::run_with_context(&e, &context), Ok(false));
    let e = Conditional(Box::new(var("a")), Box::new(var("x")));
    assert_eq!(Evaluator::run_with_context(&e, &context), Ok(true));
    context.insert("a", true);
    let e = Or(Box::new(var("a")), Box::new(var("x")));
    assert_eq!(Evaluator::run_with_context(&e, &context), Ok(true));
    let e = And(Box::new(var("a")), Box::new(var("x")));
    assert_eq!(Evaluator::run_with_context(&e, &context), Err(missing.clone()));
    let e = And(Box::new(var("x")), Box::new(var("a")));
    assert_eq!(Evaluator::run_with_context(&e, &context), Err(missing));
}

#[test]
fn run_gives_one_evaluation_per_selection() {
    let e = Xor(Box::new(var("b")), Box::new(var("a")));
    let evaluations = Evaluator::run(&e).unwrap();
    let found: Vec<(Vec<(&str, bool)>, bool)> = evaluations
        .iter()
        .map(|ev| (ev.values().clone(), ev.result()))
        .collect();
    assert_eq!(
        found,
        vec![
            (vec![("a", false), ("b", false)], false),
            (vec![("a", true), ("b", false)], true),
            (vec![("a", true), ("b", true)], false),
            (vec![("a", false), ("b", true)], true),
        ]
    );
}
