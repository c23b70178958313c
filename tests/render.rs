use celltail::attributes::IOFormat;
use celltail::checker::check_program;
use celltail::interpreter::{Cell, Run};
use celltail::lexer::lex;
use celltail::literal::Literal;
use celltail::parser::{parse, Program};
use celltail::render::{render_cells, render_output};
use celltail::tokenizer::tokenize;

fn program_of(source: &str) -> Program {
    let chars: Vec<char> = source.chars().collect();
    parse(lex(tokenize(&chars).unwrap()).unwrap()).unwrap()
}

#[test]
fn render_pads_only_top_level_numbers() {
    assert_eq!(Literal::Number(5).render(), "   5");
    assert_eq!(Literal::Number(-12).render(), " -12");
    assert_eq!(Literal::Number(123456).render(), "123456");
    assert_eq!(Literal::Null.render(), "NULL");
    let t = Literal::Tuple(vec![Literal::Number(1), Literal::Null, Literal::Tuple(vec![])]);
    assert_eq!(t.render(), "(1, NULL, (), )");
}

#[test]
fn render_cells_traces_a_row() {
    let cells = vec![
        Cell { value_from_left: Literal::Null, value_from_top: Literal::Null, value_from_right: Literal::Number(1) },
        Cell { value_from_left: Literal::Null, value_from_top: Literal::Number(5), value_from_right: Literal::Null },
        Cell::new(),
    ];
    assert_eq!(render_cells(&cells), "   1) (NULL,    5, NULL) (NULL,");
    assert_eq!(render_cells(&vec![]), "");
}

#[test]
fn render_output_in_both_formats() {
    let result = vec![Some(72), Some(105), None, Some(-1), Some(0xD800)];
    assert_eq!(render_output(&result, IOFormat::Characters), "Hi?\u{FFFD}\u{FFFD}");
    assert_eq!(render_output(&result, IOFormat::Numbers), "72, 105, ???, -1, 55296, ");
    assert_eq!(render_output(&vec![], IOFormat::Numbers), "");
}

#[test]
fn checker_rejects_global_rule_that_is_not_a_triple() {
    assert!(check_program(&program_of("x : 0;")).is_err());
    assert!(check_program(&program_of("a, b, c, d : a;")).is_err());
    assert!(check_program(&program_of("a, b, c : a, b, c;")).is_ok());
}

#[test]
fn cap_error_message_is_exact() {
    let p = program_of("M = 1; a, b, c : a, b, c;");
    let mut run = Run::new(&vec![5]);
    assert!(run.advance(&p).is_ok());
    let err = run.advance(&p).err().unwrap();
    assert_eq!(err.description(), "Exceeded maximum iteration number 1");
}

#[test]
fn unexpected_character_message_is_exact() {
    let chars: Vec<char> = "a ?".chars().collect();
    let err = tokenize(&chars).err().unwrap();
    assert_eq!(err.description(), "Unexpected token: ?");
}

#[test]
fn guard_may_call_a_function() {
    let p = program_of("fn inc x : x + 1; a, inc 1, c : a, 0, c; a, b, c : a, b, c;");
    assert!(check_program(&p).is_ok());
    let pattern = &p.rules.0[0].0;
    let v = Literal::Tuple(vec![Literal::Null, Literal::Number(2), Literal::Null]);
    assert!(pattern.matches(&v, &p.functions).is_some());
    assert!(pattern.matches(&v, &Vec::new()).is_none());
}
