use celltail::bindings::Bindings;
use celltail::errors::UnkownLocationError;
use celltail::expression::{BinaryOperator, Expression, UnaryOperator};
use celltail::interpreter::{interpret_iteration, Cell, Run, Status};
use celltail::literal::Literal;
use celltail::parser::Program;
use celltail::pattern::Pattern;
use celltail::pattern_list::{PatternList, PatternPosition};

fn num(n: isize) -> Literal {
    Literal::Number(n)
}

fn tup(v: Vec<Literal>) -> Literal {
    Literal::Tuple(v)
}

fn var(name: &str) -> Expression {
    Expression::Variable(name.to_string())
}

fn ident(name: &str) -> Pattern {
    Pattern::Identifier(name.to_string())
}

fn lit(l: Literal) -> Expression {
    Expression::Literal(l)
}

fn nowhere() -> PatternPosition {
    PatternPosition::new(&UnkownLocationError)
}

fn identity_rule() -> (Pattern, Expression, PatternPosition) {
    (
        Pattern::Tuple(vec![ident("left"), ident("top"), ident("right")]),
        Expression::Tuple(vec![var("left"), var("top"), var("right")]),
        nowhere(),
    )
}

fn identity_program() -> Program {
    let mut p = Program::new();
    p.add_rule(identity_rule());
    p
}

fn eval_plain(e: &Expression) -> Literal {
    e.evaluate(&Bindings::new(), &Vec::new())
}

#[test]
fn tuple_pattern_binds_and_checks_literal() {
    let p = Pattern::Tuple(vec![ident("x"), Pattern::Literal(num(5))]);
    let b = p.matches(&tup(vec![num(3), num(5)]), &Vec::new()).expect("should match");
    assert_eq!(b.get(&"x".to_string()), Some(&num(3)));
    assert!(b.get(&"y".to_string()).is_none());
    assert!(p.matches(&tup(vec![num(3), num(6)]), &Vec::new()).is_none());
}

#[test]
fn or_pattern_takes_second_alternative() {
    let p = Pattern::Or(vec![
        Pattern::Tuple(vec![ident("x"), Pattern::Literal(num(1))]),
        Pattern::Tuple(vec![ident("x"), Pattern::Literal(num(2))]),
    ]);
    let b = p.matches(&tup(vec![num(9), num(2)]), &Vec::new()).expect("should match");
    assert_eq!(b.get(&"x".to_string()), Some(&num(9)));
    assert!(p.matches(&tup(vec![num(9), num(3)]), &Vec::new()).is_none());
}

#[test]
fn matching_twice_gives_the_same_bindings() {
    let p = Pattern::Tuple(vec![ident("a"), ident("b"), Pattern::Any]);
    let v = tup(vec![num(1), tup(vec![num(2)]), num(3)]);
    let first = p.matches(&v, &Vec::new()).expect("should match");
    let second = p.matches(&v, &Vec::new()).expect("should match");
    for name in ["a", "b"] {
        assert_eq!(first.get(&name.to_string()), second.get(&name.to_string()));
    }
}

#[test]
fn repeated_identifier_is_an_equality_constraint() {
    let p = Pattern::Tuple(vec![ident("x"), ident("x")]);
    assert!(p.matches(&tup(vec![num(4), num(4)]), &Vec::new()).is_some());
    assert!(p.matches(&tup(vec![num(4), num(5)]), &Vec::new()).is_none());
}

#[test]
fn tuple_pattern_needs_same_arity() {
    let p = Pattern::Tuple(vec![ident("x"), ident("y")]);
    assert!(p.matches(&tup(vec![num(1), num(2), num(3)]), &Vec::new()).is_none());
    assert!(p.matches(&num(1), &Vec::new()).is_none());
}

#[test]
fn range_pattern_is_open_interval() {
    let p = Pattern::Range(Some(Box::new(lit(num(1)))), Some(Box::new(lit(num(5)))));
    assert!(p.matches(&num(1), &Vec::new()).is_none());
    assert!(p.matches(&num(2), &Vec::new()).is_some());
    assert!(p.matches(&num(4), &Vec::new()).is_some());
    assert!(p.matches(&num(5), &Vec::new()).is_none());
    let lower_only = Pattern::Range(Some(Box::new(lit(num(1)))), None);
    assert!(lower_only.matches(&num(1000), &Vec::new()).is_some());
    assert!(lower_only.matches(&Literal::Null, &Vec::new()).is_none());
}

#[test]
fn and_pattern_accumulates_bindings() {
    let p = Pattern::And(vec![ident("x"), Pattern::Expression(lit(num(7)))]);
    let b = p.matches(&num(7), &Vec::new()).expect("should match");
    assert_eq!(b.get(&"x".to_string()), Some(&num(7)));
    assert!(p.matches(&num(8), &Vec::new()).is_none());
}

#[test]
fn guard_pattern_uses_earlier_bindings() {
    let p = Pattern::Tuple(vec![
        ident("x"),
        Pattern::Expression(Expression::BinaryOperator(
            BinaryOperator::Add,
            Box::new(var("x")),
            Box::new(lit(num(1))),
        )),
    ]);
    assert!(p.matches(&tup(vec![num(3), num(4)]), &Vec::new()).is_some());
    assert!(p.matches(&tup(vec![num(3), num(5)]), &Vec::new()).is_none());
}

#[test]
fn absent_is_identity_for_add() {
    let mut vars = Bindings::new();
    vars.insert("x".to_string(), num(7));
    let e = Expression::BinaryOperator(
        BinaryOperator::Add,
        Box::new(var("x")),
        Box::new(lit(Literal::Null)),
    );
    assert_eq!(e.evaluate(&vars, &Vec::new()), num(7));
}

#[test]
fn absent_is_identity_for_every_operator() {
    let ops = [
        BinaryOperator::Add,
        BinaryOperator::Subtract,
        BinaryOperator::Multiply,
        BinaryOperator::Divide,
        BinaryOperator::And,
        BinaryOperator::Or,
        BinaryOperator::Xor,
        BinaryOperator::Mod,
    ];
    for op in ops {
        let t = tup(vec![num(1), num(2)]);
        assert_eq!(op.apply(Literal::Null, num(3)), num(3));
        assert_eq!(op.apply(num(3), Literal::Null), num(3));
        assert_eq!(op.apply(t.duplicate(), Literal::Null), t);
        assert_eq!(op.apply(Literal::Null, t.duplicate()), t);
    }
}

#[test]
fn divide_by_zero_is_absent() {
    let e = Expression::BinaryOperator(
        BinaryOperator::Divide,
        Box::new(lit(num(10))),
        Box::new(lit(num(0))),
    );
    assert_eq!(eval_plain(&e), Literal::Null);
    assert_eq!(BinaryOperator::Mod.apply(num(10), num(0)), Literal::Null);
}

#[test]
fn integer_operators_give_exact_values() {
    assert_eq!(BinaryOperator::Add.apply(num(2), num(3)), num(5));
    assert_eq!(BinaryOperator::Subtract.apply(num(2), num(3)), num(-1));
    assert_eq!(BinaryOperator::Multiply.apply(num(-4), num(3)), num(-12));
    assert_eq!(BinaryOperator::Divide.apply(num(-7), num(2)), num(-3));
    assert_eq!(BinaryOperator::Mod.apply(num(-7), num(2)), num(-1));
    assert_eq!(BinaryOperator::And.apply(num(12), num(10)), num(8));
    assert_eq!(BinaryOperator::Or.apply(num(12), num(10)), num(14));
    assert_eq!(BinaryOperator::Xor.apply(num(12), num(10)), num(6));
    assert_eq!(BinaryOperator::Add.apply(num(isize::MAX), num(1)), num(isize::MIN));
    assert_eq!(BinaryOperator::Divide.apply(num(isize::MIN), num(-1)), num(isize::MIN));
    assert_eq!(BinaryOperator::Mod.apply(num(isize::MIN), num(-1)), num(0));
}

#[test]
fn integer_with_tuple_makes_a_pair() {
    let t = tup(vec![num(1)]);
    assert_eq!(
        BinaryOperator::Add.apply(num(4), t.duplicate()),
        tup(vec![num(4), t])
    );
}

#[test]
fn tuple_operator_acts_on_last_element() {
    let s = tup(vec![num(1), num(2), num(3)]);
    assert_eq!(
        BinaryOperator::Multiply.apply(s, num(10)),
        tup(vec![num(1), num(2), num(30)])
    );
    assert_eq!(
        UnaryOperator::Neg.apply(tup(vec![num(1), num(2)])),
        tup(vec![num(1), num(-2)])
    );
}

#[test]
fn unary_operators() {
    assert_eq!(UnaryOperator::Neg.apply(num(5)), num(-5));
    assert_eq!(UnaryOperator::Neg.apply(Literal::Null), Literal::Null);
    assert_eq!(UnaryOperator::Not.apply(num(0)), num(-1));
    assert_eq!(UnaryOperator::Not.apply(num(5)), num(-6));
    assert_eq!(UnaryOperator::Not.apply(Literal::Null), Literal::Null);
    assert_eq!(
        UnaryOperator::Not.apply(tup(vec![num(1), num(2), num(3)])),
        tup(vec![num(3), num(2), num(1)])
    );
}

#[test]
fn variable_n_is_absent() {
    let mut vars = Bindings::new();
    vars.insert("N".to_string(), num(1));
    assert_eq!(var("N").evaluate(&vars, &Vec::new()), Literal::Null);
}

#[test]
fn string_literal_is_nested_pairs() {
    assert_eq!(Literal::new_string_literal(b""), Literal::Null);
    assert_eq!(
        Literal::new_string_literal(b"hi"),
        tup(vec![num(104), tup(vec![num(105), Literal::Null])])
    );
}

#[test]
fn literal_order() {
    assert!(Literal::Null.less_than(&num(-100)));
    assert!(num(100).less_than(&tup(vec![])));
    assert!(num(-3).less_than(&num(2)));
    assert!(tup(vec![num(1)]).less_than(&tup(vec![num(1), num(0)])));
    assert!(tup(vec![num(1), num(9)]).less_than(&tup(vec![num(2)])));
    assert!(!tup(vec![num(2)]).less_than(&tup(vec![num(2)])));
}

#[test]
fn first_matching_rule_wins() {
    let rules = PatternList(vec![
        (Pattern::Literal(num(1)), lit(num(10)), nowhere()),
        (ident("x"), lit(num(20)), nowhere()),
        (Pattern::Any, lit(num(30)), nowhere()),
    ]);
    let fns = Vec::new();
    assert_eq!(rules.apply_first_matching_pattern(num(1), &fns), Some(num(10)));
    assert_eq!(rules.apply_first_matching_pattern(num(2), &fns), Some(num(20)));
    let none = PatternList(vec![(Pattern::Literal(num(1)), lit(num(10)), nowhere())]);
    assert_eq!(none.apply_first_matching_pattern(num(2), &fns), None);
}

#[test]
fn function_call_dispatches_and_degrades_to_absent() {
    let mut program = Program::new();
    program.add_function_rule(
        "double".to_string(),
        (
            ident("x"),
            Expression::BinaryOperator(BinaryOperator::Multiply, Box::new(var("x")), Box::new(var("x"))),
            nowhere(),
        ),
    );
    program.add_function_rule(
        "one".to_string(),
        (Pattern::Literal(num(1)), lit(num(100)), nowhere()),
    );
    let call = |name: &str, arg: isize| {
        Expression::FunctionCall(name.to_string(), Box::new(lit(num(arg))))
            .evaluate(&Bindings::new(), &program.functions)
    };
    assert_eq!(call("double", 6), num(36));
    assert_eq!(call("one", 1), num(100));
    assert_eq!(call("one", 2), Literal::Null);
    assert_eq!(call("missing", 2), Literal::Null);
}

#[test]
fn identity_rule_on_single_value() {
    let program = identity_program();
    let mut run = Run::new(&vec![5]);
    assert_eq!(run.advance(&program).ok(), Some(Status::Changed));
    assert_eq!(run.cells.len(), 2);
    assert_eq!(run.cells[0].value_from_left, Literal::Null);
    assert_eq!(run.cells[0].value_from_top, num(5));
    assert_eq!(run.cells[0].value_from_right, Literal::Null);
    assert!(run.cells[1].same_as(&Cell::new()));
    assert_eq!(run.advance(&program).ok(), Some(Status::FixedPoint));
    assert_eq!(run.generation, 2);
    assert_eq!(run.output(), vec![Some(5)]);
}

#[test]
fn identity_rule_on_empty_input() {
    let program = identity_program();
    let mut run = Run::new(&vec![]);
    assert_eq!(run.cells.len(), 0);
    assert_eq!(run.advance(&program).ok(), Some(Status::FixedPoint));
    assert_eq!(run.cells.len(), 0);
    assert_eq!(run.output(), Vec::<Option<isize>>::new());
}

#[test]
fn iteration_cap_is_an_error() {
    let mut program = identity_program();
    program.attributes.max_iterations = Some(1);
    let mut run = Run::new(&vec![5]);
    assert_eq!(run.advance(&program).ok(), Some(Status::Changed));
    let err = run.advance(&program).err().expect("the cap is exceeded");
    assert!(err.description().contains("1"));
    assert!(!err.is_location_known());
}

#[test]
fn value_sent_left_from_first_cell_grows_the_tape() {
    // (N, t, N) with t a number sends t to the left and keeps nothing on top.
    let mut program = Program::new();
    program.add_rule((
        Pattern::Tuple(vec![Pattern::Literal(Literal::Null), ident("t"), Pattern::Literal(Literal::Null)]),
        Expression::Tuple(vec![var("t"), lit(Literal::Null), lit(Literal::Null)]),
        nowhere(),
    ));
    let cells = vec![Cell {
        value_from_left: Literal::Null,
        value_from_top: num(7),
        value_from_right: Literal::Null,
    }];
    let next = interpret_iteration(&cells, &program);
    assert_eq!(next.len(), 3);
    assert_eq!(next[0].value_from_right, num(7));
    assert_eq!(next[1].value_from_top, Literal::Null);
    assert!(next[2].same_as(&Cell::new()));
}

#[test]
fn output_marks_non_integers() {
    let mut run = Run::new(&vec![1, 2]);
    run.cells[1].value_from_top = tup(vec![num(1)]);
    run.cells.push(Cell::new());
    assert_eq!(run.output(), vec![Some(1), None]);
}
