use math::{
    decimal_text_of, simplify_atom, simplify_expression, parse_term, TokenData, LexerError,
    eval_expression, parse_equation, simplify, Atom, Equation, EvalError, Expression, Lexer,
    ParsingError, Rational, Term, TokenKind,
};

fn parse(text: &str) -> Equation {
    let mut lexer = Lexer::new("test", text);
    match parse_equation(&mut lexer) {
        Ok(q) => q,
        Err(_) => panic!("parse failed for {}", text),
    }
}

fn is_number(atom: &Atom, n: i64) -> bool {
    match atom {
        Atom::Number(v) => v.equals(&Rational::from_int(n)),
        _ => false,
    }
}

/// Whether `q` reads `name = n`.
fn is_solution(q: &Equation, name: &str, n: i64) -> bool {
    match q {
        Equation::Equality { left, right } => {
            left.terms.len() == 1
                && left.terms[0].atoms.len() == 1
                && matches!(&left.terms[0].atoms[0], Atom::Variable(v) if v.as_str() == name)
                && right.terms.len() == 1
                && right.terms[0].atoms.len() == 1
                && is_number(&right.terms[0].atoms[0], n)
        }
    }
}

fn num(n: i64) -> Atom {
    Atom::Number(Rational::from_int(n))
}

fn var(name: &str) -> Atom {
    Atom::Variable(name.to_string())
}

/// `-3*x + 2*x + -3 = 1 + 2`, built directly: the grammar has no negative literals.
fn linear_example() -> Equation {
    Equation::Equality {
        left: Expression {
            terms: vec![
                Term { atoms: vec![num(-3), var("x")] },
                Term { atoms: vec![num(2), var("x")] },
                Term { atoms: vec![num(-3)] },
            ],
        },
        right: Expression { terms: vec![Term { atoms: vec![num(1)] }, Term { atoms: vec![num(2)] }] },
    }
}

#[test]
fn linear_isolation() {
    let q = linear_example();
    let r = simplify(&q).ok().unwrap();
    assert!(is_solution(&r, "x", -6));
}

#[test]
fn fraction_cross_multiplication() {
    let q = parse("((909*y + 5)/(116)) = 1246");
    let r = simplify(&q).ok().unwrap();
    assert!(is_solution(&r, "y", 159));
}

#[test]
fn pure_numeric_equality() {
    let q = parse("1+2 = 3");
    let Equation::Equality { left, right } = &q;
    assert!(eval_expression(left).ok().unwrap().equals(&Rational::from_int(3)));
    assert!(eval_expression(right).ok().unwrap().equals(&Rational::from_int(3)));
    let r = simplify(&q).ok().unwrap();
    assert!(!r.contains_variable());
    let Equation::Equality { left, right } = &r;
    let a = eval_expression(left).ok().unwrap();
    let b = eval_expression(right).ok().unwrap();
    assert!(a.equals(&b));
}

#[test]
fn pure_numeric_inequality() {
    let q = parse("1+2 = 4");
    let r = simplify(&q).ok().unwrap();
    let Equation::Equality { left, right } = &r;
    let a = eval_expression(left).ok().unwrap();
    let b = eval_expression(right).ok().unwrap();
    assert!(!a.equals(&b));
}

#[test]
fn group_distribution() {
    let q = parse("(x+1)*2 = 4");
    let r = simplify(&q).ok().unwrap();
    assert!(is_solution(&r, "x", 1));
}

#[test]
fn simplify_is_idempotent() {
    let mut inputs = vec![linear_example()];
    for text in ["(x+1)*2 = 4", "2*x + 3 = x - 5", "1+2 = 3", "((909*y + 5)/(116)) = 1246"] {
        inputs.push(parse(text));
    }
    for q in inputs {
        let once = simplify(&q).ok().unwrap();
        let twice = simplify(&once).ok().unwrap();
        assert!(once.equals(&twice));
    }
}

#[test]
fn parser_error_points_at_equal_sign() {
    let mut lexer = Lexer::new("stdin", "x + = 2");
    match parse_equation(&mut lexer) {
        Err(ParsingError::ExpectedAtom { got }) => {
            assert!(got.kind == TokenKind::Equal);
            assert_eq!(got.span.start.line, 1);
            assert_eq!(got.span.start.column, 5);
            assert_eq!(got.span.filepath, "stdin");
        }
        _ => panic!("expected a syntactic error"),
    }
}

#[test]
fn lexer_rejects_unknown_character() {
    let mut lexer = Lexer::new("stdin", "x # 2");
    assert!(matches!(parse_equation(&mut lexer), Err(ParsingError::LexerError(_))));
}

#[test]
fn decimal_numbers_are_exact() {
    let q = parse("0.1 + 0.2 = 0.3");
    let Equation::Equality { left, right } = &q;
    let a = eval_expression(left).ok().unwrap();
    let b = eval_expression(right).ok().unwrap();
    assert!(a.equals(&b));
    let third = Rational::from_int(3).div(&Rational::from_int(10));
    assert!(b.equals(&third));
}

#[test]
fn empty_term_is_one_and_empty_expression_is_zero() {
    let one = Expression { terms: vec![Term { atoms: vec![] }] };
    assert!(eval_expression(&one).ok().unwrap().equals(&Rational::from_int(1)));
    let zero = Expression { terms: vec![] };
    assert!(eval_expression(&zero).ok().unwrap().equals(&Rational::from_int(0)));
}

#[test]
fn evaluating_a_variable_fails() {
    let e = Expression { terms: vec![Term { atoms: vec![Atom::Variable("x".to_string())] }] };
    assert!(matches!(eval_expression(&e), Err(EvalError::VariableEncountered)));
}

#[test]
fn division_by_zero_fails() {
    let q = parse("1/0 = 1");
    let Equation::Equality { left, .. } = &q;
    assert!(matches!(eval_expression(left), Err(EvalError::DivisionByZero)));
}

#[test]
fn rational_arithmetic_reduces() {
    let a = Rational::from_int(6).div(&Rational::from_int(4));
    let b = Rational::from_int(3).div(&Rational::from_int(2));
    assert!(a.equals(&b));
    let s = a.add(&b);
    assert!(s.equals(&Rational::from_int(3)));
    let p = a.mul(&Rational::from_int(-2));
    assert!(p.equals(&Rational::from_int(-3)));
    assert!(!a.equals(&Rational::from_int(1)));
}

#[test]
fn like_terms_merge() {
    let q = parse("2*x + 3*x = 10");
    let r = simplify(&q).ok().unwrap();
    assert!(is_solution(&r, "x", 2));
}

#[test]
fn empty_term_and_expression_render() {
    assert_eq!(Term { atoms: vec![] }.to_text(), "1");
    assert_eq!(Expression { terms: vec![] }.to_text(), "0");
    let e = Expression { terms: vec![Term { atoms: vec![] }, Term { atoms: vec![num(2), var("x")] }] };
    assert_eq!(e.to_text(), "1 + 2*x");
}

#[test]
fn equation_renders_as_written() {
    assert_eq!(parse("(x+1)*2 = 4").to_text(), "(x + 1)*2 = 4");
    assert_eq!(parse("x - 1 = 0").to_text(), "x + 1*-1 = 0");
    assert_eq!(parse("1/2 = y").to_text(), "((1)/(2)) = y");
}

#[test]
fn solutions_render() {
    let r = simplify(&linear_example()).ok().unwrap();
    assert_eq!(r.to_text(), "x = -6");
    let r = simplify(&parse("((909*y + 5)/(116)) = 1246")).ok().unwrap();
    assert_eq!(r.to_text(), "y = 159");
}

fn ratio(n: i64, d: i64) -> Rational {
    Rational::from_int(n).div(&Rational::from_int(d))
}

fn text(r: &Rational) -> String {
    decimal_text_of(r, 10).into_iter().collect()
}

#[test]
fn numbers_render_in_decimal() {
    assert_eq!(text(&Rational::from_int(42)), "42");
    assert_eq!(text(&Rational::from_int(-7)), "-7");
    assert_eq!(text(&Rational::from_int(0)), "0");
    assert_eq!(text(&ratio(3, 2)), "1.5");
    assert_eq!(text(&ratio(-3, 2)), "-1.5");
    assert_eq!(text(&ratio(1, 4)), "0.25");
    assert_eq!(text(&ratio(1, 3)), "0.3333333333");
    assert_eq!(text(&ratio(2, 3)), "0.6666666667");
    assert_eq!(text(&ratio(1, 20)), "0.05");
    assert_eq!(text(&ratio(-1, 2)), "-0.5");
    assert_eq!(text(&ratio(-21, 20)), "-1.05");
    assert_eq!(text(&ratio(1, 1000)), "0.001");
}

#[test]
fn missing_end_of_input_is_reported() {
    let mut lexer = Lexer::new("stdin", "x = 2 )");
    match parse_equation(&mut lexer) {
        Err(ParsingError::ExpectedToken { expected, got }) => {
            assert!(expected == TokenKind::EOF);
            assert!(got.kind == TokenKind::CloseParenthesis);
            assert_eq!(got.span.start.column, 7);
        }
        _ => panic!("expected a missing end of input"),
    }
}

#[test]
fn like_terms_are_ordered_numbers_first() {
    let Equation::Equality { left, .. } = parse("x + 2 + 3*x = 0");
    let s = simplify_expression(&left).ok().unwrap();
    assert_eq!(s.to_text(), "2 + 4*x");
}

#[test]
fn zero_coefficient_collapses() {
    let Equation::Equality { left, .. } = parse("x - x + 1 = 0");
    let s = simplify_expression(&left).ok().unwrap();
    assert_eq!(s.to_text(), "1 + 0");
}

#[test]
fn lexer_reads_exact_decimal_with_span() {
    let mut lx = Lexer::new("f", "12.5");
    let t = lx.next_token().ok().unwrap();
    assert!(t.kind == TokenKind::Number);
    match &t.data {
        TokenData::Number(v) => assert!(v.equals(&ratio(25, 2))),
        _ => panic!("expected a number"),
    }
    assert_eq!(t.span.filepath, "f");
    assert_eq!((t.span.start.line, t.span.start.column), (1, 1));
    assert_eq!((t.span.end.line, t.span.end.column), (1, 5));
}

#[test]
fn lexer_error_after_name() {
    let mut lx = Lexer::new("f", "x $");
    let t = lx.next_token().ok().unwrap();
    assert!(t.kind == TokenKind::Name);
    match lx.next_token() {
        Err(LexerError::UnexpectedCharacter { span, character }) => {
            assert_eq!(character, '$');
            assert_eq!((span.start.line, span.start.column), (1, 3));
            assert_eq!((span.end.line, span.end.column), (1, 4));
        }
        _ => panic!("expected a lexical error"),
    }
}

#[test]
fn end_of_input_is_sticky() {
    let mut lx = Lexer::new("f", "  ");
    for _ in 0..2 {
        let t = lx.next_token().ok().unwrap();
        assert!(t.kind == TokenKind::EOF);
        assert_eq!((t.span.start.line, t.span.start.column), (1, 3));
        assert_eq!((t.span.end.line, t.span.end.column), (1, 3));
    }
}

#[test]
fn peek_matches_next() {
    let mut lx = Lexer::new("f", " abc + 1");
    let p = lx.peek_token().ok().unwrap();
    let n = lx.next_token().ok().unwrap();
    assert!(p.kind == n.kind);
    assert_eq!(p.span.start.column, n.span.start.column);
    assert_eq!(p.span.end.column, n.span.end.column);
}

#[test]
fn division_wraps_atoms_so_far() {
    let mut lx = Lexer::new("f", "a*b/c");
    let t = parse_term(&mut lx).ok().unwrap();
    assert_eq!(t.to_text(), "((a*b)/(c))");
}

#[test]
fn subtraction_appends_minus_one() {
    let Equation::Equality { left, .. } = parse("x - 2 = 0");
    assert_eq!(left.to_text(), "x + 2*-1");
}

#[test]
fn trailing_token_is_reported() {
    let mut lexer = Lexer::new("f", "x = 1)");
    match parse_equation(&mut lexer) {
        Err(ParsingError::ExpectedToken { expected, got }) => {
            assert!(expected == TokenKind::EOF);
            assert!(got.kind == TokenKind::CloseParenthesis);
            assert_eq!((got.span.start.line, got.span.start.column), (1, 6));
        }
        _ => panic!("expected a missing end of input"),
    }
}

#[test]
fn group_folds_once_variable_free() {
    let Equation::Equality { left, .. } = parse("(x - x) = 1");
    let a = simplify_atom(&left.terms[0].atoms[0]).ok().unwrap();
    assert_eq!(a.to_text(), "0");
}

#[test]
fn fraction_folds_once_variable_free() {
    let Equation::Equality { left, .. } = parse("(x - x)/2 = 1");
    let a = simplify_atom(&left.terms[0].atoms[0]).ok().unwrap();
    assert_eq!(a.to_text(), "0");
}

#[test]
fn variables_order_before_fractions() {
    let Equation::Equality { left, .. } = parse("y/2 + x = 0");
    let s = simplify_expression(&left).ok().unwrap();
    assert_eq!(s.to_text(), "x + ((y)/(2))");
}

#[test]
fn newlines_and_tabs_advance_the_location() {
    let mut lx = Lexer::new("f", "x\t=\n  2");
    lx.next_token().ok().unwrap();
    lx.next_token().ok().unwrap();
    let t = lx.next_token().ok().unwrap();
    assert!(t.kind == TokenKind::Number);
    assert_eq!((t.span.start.line, t.span.start.column), (2, 3));
    assert_eq!((t.span.end.line, t.span.end.column), (2, 4));
}
