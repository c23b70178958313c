use celltail::attributes::{IOFormat, InputSource};
use celltail::checker::check_program;
use celltail::errors::{fallback_position, line_position, CellTailError, PointError, RangeError, UnkownLocationError};
use celltail::interpreter::{get_contents, Run, Status};
use celltail::lexer::{lex, LexerToken, TokenGroup};
use celltail::literal::Literal;
use celltail::pattern::Pattern;
use celltail::parser::{parse, Program};
use celltail::tokenizer::{tokenize, Token, TokenKind};

fn chars(s: &str) -> Vec<char> {
    s.chars().collect()
}

fn program_of(source: &str) -> Program {
    let tokens = tokenize(&chars(source)).expect("tokens");
    let group = lex(tokens).expect("groups");
    parse(group).expect("program")
}

fn run_to_end(program: &Program, input: Vec<isize>) -> Result<Vec<Option<isize>>, CellTailError> {
    let mut run = Run::new(&input);
    loop {
        match run.advance(program)? {
            Status::Changed => {}
            Status::FixedPoint => return Ok(run.output()),
        }
        assert!(run.generation < 1000, "did not settle");
    }
}

fn group_of(kinds: &[TokenKind]) -> TokenGroup {
    TokenGroup {
        delimiter: None,
        contents: kinds
            .iter()
            .enumerate()
            .map(|(i, k)| {
                LexerToken::BasicToken(Token { kind: *k, start: i, end: i + 1, value: "x".to_string() })
            })
            .collect(),
    }
}

#[test]
fn tokenize_names_operators_numbers() {
    let tokens = tokenize(&chars("a1 ++ 23")).expect("tokens");
    assert_eq!(tokens.len(), 3);
    assert_eq!(tokens[0].kind, TokenKind::Identifier);
    assert_eq!(tokens[0].value, "a1");
    assert_eq!((tokens[0].start, tokens[0].end), (0, 3));
    assert_eq!(tokens[1].kind, TokenKind::Operator('+'));
    assert_eq!(tokens[1].value, "++");
    assert_eq!(tokens[2].kind, TokenKind::Number);
    assert_eq!(tokens[2].value, "23");
    assert_eq!((tokens[2].start, tokens[2].end), (6, 9));
}

#[test]
fn tokenize_text_comment_and_punctuation() {
    let tokens = tokenize(&chars("\"hi\" # note\n(,:;=)..")).expect("tokens");
    let kinds: Vec<TokenKind> = tokens.iter().map(|t| t.kind).collect();
    assert_eq!(
        kinds,
        vec![
            TokenKind::String,
            TokenKind::Comment,
            TokenKind::OpeningBracket('('),
            TokenKind::Comma,
            TokenKind::Colon,
            TokenKind::Semicolon,
            TokenKind::Equals,
            TokenKind::ClosingBracket(')'),
            TokenKind::Elipsis,
        ]
    );
    assert_eq!(tokens[0].value, "hi");
    assert_eq!((tokens[0].start, tokens[0].end), (1, 4));
    assert_eq!(tokens[1].value, "# note");
}

#[test]
fn tokenize_rejects_unknown_character() {
    let err = tokenize(&chars("a $")).err().expect("error");
    assert_eq!(err.start(), Some(2));
    assert_eq!(err.end(), None);
    assert!(err.description().contains('$'));
}

#[test]
fn lex_groups_statements_and_brackets() {
    let group = lex(tokenize(&chars("a (b c); d;")).unwrap()).expect("groups");
    assert_eq!(group.delimiter, None);
    assert_eq!(group.contents.len(), 2);
    match &group.contents[0] {
        LexerToken::Group(g) => {
            assert_eq!(g.delimiter, Some(';'));
            assert_eq!(g.contents.len(), 2);
            match &g.contents[1] {
                LexerToken::Group(inner) => {
                    assert_eq!(inner.delimiter, Some('('));
                    assert_eq!(inner.contents.len(), 2);
                }
                _ => panic!("expected a bracket group"),
            }
        }
        _ => panic!("expected a statement"),
    }
}

#[test]
fn lex_reports_misplaced_brackets_and_missing_semicolon() {
    assert!(lex(tokenize(&chars("(a;")).unwrap()).is_err());
    assert!(lex(tokenize(&chars("a)")).unwrap()).is_err());
    assert!(lex(tokenize(&chars("a")).unwrap()).is_err());
    assert!(lex(tokenize(&chars("(a")).unwrap()).is_err());
    assert!(lex(tokenize(&chars("# only a comment")).unwrap()).is_ok());
}

#[test]
fn token_group_split_and_contains() {
    let g = group_of(&[TokenKind::Identifier, TokenKind::Comma, TokenKind::Number, TokenKind::Comma]);
    assert!(g.contains(TokenKind::Comma));
    assert!(!g.contains(TokenKind::Colon));
    let (left, middle, right) = g.split_first(TokenKind::Comma).expect("split");
    assert_eq!(left.contents.len(), 1);
    assert_eq!(middle.start, 1);
    assert_eq!(right.contents.len(), 2);
    assert!(g.split_first(TokenKind::Colon).is_none());
    let pieces = g.split_all(TokenKind::Comma);
    assert_eq!(pieces.len(), 3);
    assert_eq!(pieces[0].contents.len(), 1);
    assert_eq!(pieces[1].contents.len(), 1);
    assert_eq!(pieces[2].contents.len(), 0);
}

#[test]
fn parse_attributes_functions_and_rules() {
    let p = program_of("I = 1, 2, -3; O = numbers; D = yes; M = 10; fn f x : x + 1; fn f N : 0; a, b, c : a, f b, c;");
    match &p.attributes.input_mode {
        InputSource::Constant(v) => assert_eq!(v, &vec![1, 2, -3]),
        _ => panic!("expected constant input"),
    }
    assert_eq!(p.attributes.output_mode, IOFormat::Numbers);
    assert!(p.attributes.debug);
    assert_eq!(p.attributes.max_iterations, Some(10));
    assert_eq!(p.functions.len(), 1);
    assert_eq!(p.functions[0].0, "f");
    assert_eq!(p.functions[0].1 .0.len(), 2);
    assert_eq!(p.rules.0.len(), 1);
    assert!(check_program(&p).is_ok());
}

#[test]
fn parse_input_words_and_text() {
    let p = program_of("I = stdin chars; a, b, c : a, b, c;");
    assert!(matches!(p.attributes.input_mode, InputSource::StdIn(IOFormat::Characters)));
    let q = program_of("I = cmd numbers; a, b, c : a, b, c;");
    assert!(matches!(q.attributes.input_mode, InputSource::Arg(IOFormat::Numbers)));
    let r = program_of("I = \"AB\"; a, b, c : a, b, c;");
    match &r.attributes.input_mode {
        InputSource::Constant(v) => assert_eq!(v, &vec![65, 66]),
        _ => panic!("expected constant input"),
    }
}

#[test]
fn parse_reports_errors() {
    let parse_src = |s: &str| parse(lex(tokenize(&chars(s)).unwrap()).unwrap());
    assert!(parse_src("a, b, c;").is_err());
    assert!(parse_src("Colour = red;").is_err());
    assert!(parse_src("M = x;").is_err());
    assert!(parse_src("fn : x;").is_err());
    assert!(parse_src("a, _, c : a, _, c;").is_err());
}

#[test]
fn checker_rejects_bad_programs() {
    assert!(check_program(&program_of("a, b, c : a, d, c;")).is_err());
    assert!(check_program(&program_of("a, b : a, b;")).is_err());
    assert!(check_program(&program_of("a, b, c : a, g b, c;")).is_err());
    assert!(check_program(&program_of("fn f x : f x; a, b, c : a, f b, c;")).is_err());
    assert!(check_program(&program_of("a, (x, 1) | (y, 2), c : a, x, c;")).is_err());
    assert!(check_program(&program_of("a, (x, 1) | (x, 2), c : a, x, c;")).is_ok());
    assert!(check_program(&program_of("a, b, c : a, N, c;")).is_ok());
}

#[test]
fn end_to_end_range_rule() {
    let p = program_of("a, 0..10, c : a, 10, c; a, b, c : a, b, c;");
    assert!(check_program(&p).is_ok());
    assert_eq!(run_to_end(&p, vec![1, 20]).unwrap(), vec![Some(10), Some(20)]);
}

#[test]
fn end_to_end_function_call() {
    let p = program_of("fn sq x : x * x; a, 3, c : a, sq 3, c; a, b, c : a, b, c;");
    assert!(check_program(&p).is_ok());
    assert_eq!(run_to_end(&p, vec![3, 4]).unwrap(), vec![Some(9), Some(4)]);
}

#[test]
fn end_to_end_iteration_cap() {
    let p = program_of("M = 1; a, b, c : a, b, c;");
    let err = run_to_end(&p, vec![5]).err().expect("cap exceeded");
    assert!(err.description().contains("1"));
}

#[test]
fn get_contents_reads_numbers_and_characters() {
    assert_eq!(get_contents(&"1,-2,30".to_string(), IOFormat::Numbers).unwrap(), vec![1, -2, 30]);
    assert_eq!(get_contents(&"7".to_string(), IOFormat::Numbers).unwrap(), vec![7]);
    assert!(get_contents(&"1,x".to_string(), IOFormat::Numbers).is_err());
    assert!(get_contents(&"".to_string(), IOFormat::Numbers).is_err());
    assert_eq!(get_contents(&"AB".to_string(), IOFormat::Characters).unwrap(), vec![65, 66]);
}

#[test]
fn line_position_counts_lines_and_columns() {
    let src = chars("ab\ncd\nef");
    let p = line_position(&src, 4);
    assert_eq!((p.line_number, p.column_number, p.line_start, p.line_end), (1, 1, 3, 5));
    let q = line_position(&src, 0);
    assert_eq!((q.line_number, q.column_number, q.line_start, q.line_end), (0, 0, 0, 2));
    let r = line_position(&src, 7);
    assert_eq!((r.line_number, r.column_number, r.line_start, r.line_end), (2, 1, 6, 8));
}

#[test]
fn errors_keep_or_take_a_place() {
    let e = CellTailError::new(&RangeError(3, 5), "m".to_string());
    assert_eq!((e.start(), e.end()), (Some(3), Some(5)));
    let backwards = CellTailError::new(&RangeError(5, 3), "m".to_string());
    assert!(!backwards.is_location_known());
    let point = CellTailError::new(&PointError(4), "m".to_string());
    assert_eq!((point.start(), point.end()), (Some(4), None));
    let unknown: Result<(), CellTailError> = Err(CellTailError::new(&UnkownLocationError, "u".to_string()));
    let placed = fallback_position(unknown, &RangeError(1, 2)).err().unwrap();
    assert_eq!((placed.start(), placed.end()), (Some(1), Some(2)));
    assert_eq!(placed.description(), "u");
    let known: Result<(), CellTailError> = Err(CellTailError::new(&PointError(9), "k".to_string()));
    let kept = fallback_position(known, &RangeError(1, 2)).err().unwrap();
    assert_eq!(kept.start(), Some(9));
}

fn expression_of(source: &str) -> Result<celltail::expression::Expression, CellTailError> {
    let group = lex(tokenize(&chars(&format!("{};", source))).unwrap()).unwrap();
    match group.contents.into_iter().next() {
        Some(LexerToken::Group(g)) => celltail::parse_expression::parse_as_expression(g),
        _ => panic!("expected a statement"),
    }
}

fn pattern_of(source: &str) -> Result<celltail::pattern::Pattern, CellTailError> {
    let group = lex(tokenize(&chars(&format!("{};", source))).unwrap()).unwrap();
    match group.contents.into_iter().next() {
        Some(LexerToken::Group(g)) => celltail::parse_pattern::parse_as_pattern(g),
        _ => panic!("expected a statement"),
    }
}

fn value_of(source: &str) -> celltail::literal::Literal {
    expression_of(source)
        .expect("expression")
        .evaluate(&celltail::bindings::Bindings::new(), &Vec::new())
}

#[test]
fn expression_precedence_and_lists() {
    assert_eq!(value_of("1 + 2 * 3"), Literal::Number(7));
    assert_eq!(value_of("10 - 4 - 3"), Literal::Number(9));
    assert_eq!(value_of("(10 - 4) - 3"), Literal::Number(3));
    assert_eq!(value_of("-5"), Literal::Number(-5));
    assert_eq!(value_of("7 % 4"), Literal::Number(3));
    assert_eq!(
        value_of("[1, 2]"),
        Literal::Tuple(vec![
            Literal::Number(1),
            Literal::Tuple(vec![Literal::Number(2), Literal::Null])
        ])
    );
    assert_eq!(value_of("\"A\""), Literal::new_string_literal(b"A"));
    assert_eq!(value_of("N"), Literal::Null);
    assert!(expression_of("1 +").is_err());
    assert!(expression_of("99999999999999999999").is_err());
}

#[test]
fn pattern_forms() {
    assert!(matches!(pattern_of("_").unwrap(), Pattern::Any));
    assert!(matches!(pattern_of("x & 3").unwrap(), Pattern::And(_)));
    assert!(matches!(pattern_of("1 | 2").unwrap(), Pattern::Or(_)));
    let open_range = pattern_of("..5").unwrap();
    assert!(open_range.matches(&Literal::Number(-100), &Vec::new()).is_some());
    assert!(open_range.matches(&Literal::Number(5), &Vec::new()).is_none());
    let guard = pattern_of("2 + 2").unwrap();
    assert!(guard.matches(&Literal::Number(4), &Vec::new()).is_some());
    assert!(guard.matches(&Literal::Number(5), &Vec::new()).is_none());
    assert!(matches!(pattern_of("N").unwrap(), Pattern::Literal(Literal::Null)));
}

#[test]
fn negative_cap_and_bad_attribute_values() {
    let parse_src = |s: &str| parse(lex(tokenize(&chars(s)).unwrap()).unwrap());
    let p = parse_src("M = -2; a, b, c : a, b, c;").expect("program");
    assert_eq!(p.attributes.max_iterations, Some(-2));
    assert!(parse_src("O = loud;").is_err());
    assert!(parse_src("D = maybe;").is_err());
    assert!(parse_src("I = stdin words;").is_err());
    assert!(parse_src("I = nowhere chars;").is_err());
    let q = parse_src("O = N; D = false;").expect("program");
    assert_eq!(q.attributes.output_mode, IOFormat::Numbers);
    assert!(!q.attributes.debug);
}
