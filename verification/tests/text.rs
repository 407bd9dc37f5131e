use truthful::grammar::{command, Command};
use truthful::Instruction;
use truthful::Instruction::{
    And, Argument, Biconditional, Conditional, Equals, False, Not, Or, True, Xor,
};

fn var(name: &str) -> Instruction {
    Argument(name.to_string())
}

#[test]
fn to_string_writes_each_connective() {
    let a = || Box::new(var("a"));
    let b = || Box::new(var("b"));
    assert_eq!(True.to_string(), "1");
    assert_eq!(False.to_string(), "0");
    assert_eq!(var("a").to_string(), "\"a\"");
    assert_eq!(Not(a()).to_string(), "!\"a\"");
    assert_eq!(And(a(), b()).to_string(), "(\"a\" ^ \"b\")");
    assert_eq!(Or(a(), b()).to_string(), "(\"a\" v \"b\")");
    assert_eq!(Xor(a(), b()).to_string(), "(\"a\" + \"b\")");
    assert_eq!(Conditional(a(), b()).to_string(), "(\"a\" -> \"b\")");
    assert_eq!(Biconditional(a(), b()).to_string(), "(\"a\" <-> \"b\")");
    assert_eq!(Equals(a(), b()).to_string(), "(\"a\" = \"b\")");
}

#[test]
fn to_string_nests() {
    let e = Conditional(
        Box::new(Not(Box::new(Xor(
            Box::new(var("x y")),
            Box::new(True),
        )))),
        Box::new(Or(Box::new(False), Box::new(var("z")))),
    );
    assert_eq!(e.to_string(), "(!(\"x y\" + 1) -> (0 v \"z\"))");
}

#[test]
fn try_from_reads_what_to_string_writes() {
    let samples = vec![
        var("a"),
        var("two words"),
        Not(Box::new(var("a"))),
        And(Box::new(var("a")), Box::new(Not(Box::new(var("b"))))),
        Equals(
            Box::new(Biconditional(Box::new(var("a")), Box::new(var("b")))),
            Box::new(Conditional(
                Box::new(Or(Box::new(var("c")), Box::new(var("d")))),
                Box::new(Not(Box::new(Xor(Box::new(var("e")), Box::new(var("f")))))),
            )),
        ),
    ];
    for e in samples {
        assert_eq!(Instruction::try_from(&e.to_string()), Ok(e));
    }
}

#[test]
fn try_from_reads_words_and_signs() {
    let a = || Box::new(var("a"));
    let b = || Box::new(var("b"));
    assert_eq!(Instruction::try_from("a ^ b"), Ok(And(a(), b())));
    assert_eq!(Instruction::try_from("a AND b"), Ok(And(a(), b())));
    assert_eq!(Instruction::try_from("a v b"), Ok(Or(a(), b())));
    assert_eq!(Instruction::try_from("a Or b"), Ok(Or(a(), b())));
    assert_eq!(Instruction::try_from("a xor b"), Ok(Xor(a(), b())));
    assert_eq!(Instruction::try_from("a -> b"), Ok(Conditional(a(), b())));
    assert_eq!(Instruction::try_from("a cond b"), Ok(Conditional(a(), b())));
    assert_eq!(Instruction::try_from("a <-> b"), Ok(Biconditional(a(), b())));
    assert_eq!(Instruction::try_from("a bicond b"), Ok(Biconditional(a(), b())));
    assert_eq!(Instruction::try_from("a = b"), Ok(Equals(a(), b())));
    assert_eq!(Instruction::try_from("a equals b"), Ok(Equals(a(), b())));
    assert_eq!(Instruction::try_from("!a"), Ok(Not(a())));
    assert_eq!(Instruction::try_from("not a"), Ok(Not(a())));
    assert_eq!(Instruction::try_from("  ( a )\t"), Ok(var("a")));
}

#[test]
fn try_from_groups_to_the_left() {
    let expected = Or(
        Box::new(And(Box::new(var("a")), Box::new(var("b")))),
        Box::new(var("c")),
    );
    assert_eq!(Instruction::try_from("a ^ b v c"), Ok(expected));
    let expected = And(
        Box::new(var("a")),
        Box::new(Or(Box::new(var("b")), Box::new(var("c")))),
    );
    assert_eq!(Instruction::try_from("a ^ (b v c)"), Ok(expected));
}

#[test]
fn try_from_counts_negations() {
    assert_eq!(Instruction::try_from("!!a"), Ok(var("a")));
    assert_eq!(
        Instruction::try_from("! not !a"),
        Ok(Not(Box::new(var("a"))))
    );
    assert_eq!(
        Instruction::try_from("!(!a)"),
        Ok(Not(Box::new(Not(Box::new(var("a"))))))
    );
}

#[test]
fn try_from_strips_quotes() {
    assert_eq!(Instruction::try_from("\"x y\""), Ok(var("x y")));
    assert_eq!(Instruction::try_from("'x \"y\"'"), Ok(var("x \"y\"")));
    assert_eq!(
        Instruction::try_from("'it rains' -> \"it's wet\""),
        Ok(Conditional(
            Box::new(var("it rains")),
            Box::new(var("it's wet"))
        ))
    );
}

#[test]
fn try_from_rejects_what_is_no_expression() {
    let fault = Err("the text is not an expression".to_string());
    assert_eq!(Instruction::try_from(""), fault);
    assert_eq!(Instruction::try_from("a +"), fault);
    assert_eq!(Instruction::try_from("+ a"), fault);
    assert_eq!(Instruction::try_from("(a"), fault);
    assert_eq!(Instruction::try_from("a)"), fault);
    assert_eq!(Instruction::try_from("a b"), fault);
    assert_eq!(Instruction::try_from("\"\""), fault);
    assert_eq!(Instruction::try_from("a ? b"), fault);
    assert_eq!(Instruction::try_from("!"), fault);
}

#[test]
fn command_takes_words_in_either_case() {
    assert_eq!(command("q"), Command::Quit);
    assert_eq!(command("Q"), Command::Quit);
    assert_eq!(command("quit"), Command::Quit);
    assert_eq!(command("QuIt"), Command::Quit);
    assert_eq!(command("?"), Command::Help);
    assert_eq!(command("h"), Command::Help);
    assert_eq!(command("HELP"), Command::Help);
    assert_eq!(command(""), Command::Nothing);
    assert_eq!(command(" "), Command::Evaluate);
    assert_eq!(command("quit "), Command::Evaluate);
    assert_eq!(command("qu"), Command::Evaluate);
    assert_eq!(command("a v b"), Command::Evaluate);
}
