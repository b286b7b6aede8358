use minclang::compiler::{compile, parse, run, tokenize, tokenize_checked, Expr, Instr, Token};

fn lit(n: i64) -> Box<Expr> {
    Box::new(Expr::Lit(n))
}

#[test]
fn tokenize_integer() {
    assert_eq!(tokenize("42"), Ok(vec![Token::Int(42)]));
}

#[test]
fn tokenize_skips_whitespace() {
    assert_eq!(
        tokenize("1 + 2"),
        Ok(vec![Token::Int(1), Token::Plus, Token::Int(2)])
    );
}

#[test]
fn tokenize_all_operators() {
    assert_eq!(
        tokenize("+-*/"),
        Ok(vec![Token::Plus, Token::Minus, Token::Star, Token::Slash])
    );
}

#[test]
fn tokenize_parens() {
    assert_eq!(
        tokenize("(1)"),
        Ok(vec![Token::LParen, Token::Int(1), Token::RParen])
    );
}

#[test]
fn tokenize_unknown_char_is_error() {
    assert_eq!(
        tokenize("1 + a"),
        Err("unexpected character: a".to_string())
    );
}

#[test]
fn parse_literal() {
    assert_eq!(parse(vec![Token::Int(5)]), Ok(Expr::Lit(5)));
}

#[test]
fn parse_add() {
    assert_eq!(
        parse(vec![Token::Int(1), Token::Plus, Token::Int(2)]),
        Ok(Expr::Add(Box::new(Expr::Lit(1)), Box::new(Expr::Lit(2))))
    );
}

#[test]
fn parse_sub() {
    assert_eq!(
        parse(vec![Token::Int(3), Token::Minus, Token::Int(1)]),
        Ok(Expr::Sub(Box::new(Expr::Lit(3)), Box::new(Expr::Lit(1))))
    );
}

#[test]
fn parse_mul_before_add() {
    assert_eq!(
        parse(vec![
            Token::Int(1),
            Token::Plus,
            Token::Int(2),
            Token::Star,
            Token::Int(3)
        ]),
        Ok(Expr::Add(
            Box::new(Expr::Lit(1)),
            Box::new(Expr::Mul(Box::new(Expr::Lit(2)), Box::new(Expr::Lit(3))))
        ))
    );
}

#[test]
fn parse_parens_override_precedence() {
    assert_eq!(
        parse(vec![
            Token::LParen,
            Token::Int(1),
            Token::Plus,
            Token::Int(2),
            Token::RParen,
            Token::Star,
            Token::Int(3)
        ]),
        Ok(Expr::Mul(
            Box::new(Expr::Add(Box::new(Expr::Lit(1)), Box::new(Expr::Lit(2)))),
            Box::new(Expr::Lit(3))
        ))
    );
}

#[test]
fn parse_unary_minus() {
    assert_eq!(
        parse(vec![Token::Minus, Token::Int(5)]),
        Ok(Expr::Neg(Box::new(Expr::Lit(5))))
    );
}

#[test]
fn parse_empty_is_error() {
    assert_eq!(parse(vec![]), Err("unexpected end of input".to_string()));
}

// --- lexer edge cases ---

#[test]
fn tokenize_all_ascii_whitespace_kinds() {
    assert_eq!(
        tokenize(" \t\n\x0C\r7\r\n"),
        Ok(vec![Token::Int(7)])
    );
}

#[test]
fn tokenize_vertical_tab_is_not_whitespace() {
    assert_eq!(tokenize("1\x0B2"), Err("unexpected character: \x0B".to_string()));
}

#[test]
fn tokenize_non_ascii_character_is_error() {
    assert_eq!(tokenize("2 × 3"), Err("unexpected character: ×".to_string()));
}

#[test]
fn tokenize_empty_input() {
    assert_eq!(tokenize(""), Ok(vec![]));
    assert_eq!(tokenize("   "), Ok(vec![]));
}

#[test]
fn tokenize_adjacent_numbers_and_symbols() {
    assert_eq!(
        tokenize("12*(3-45)/6"),
        Ok(vec![
            Token::Int(12),
            Token::Star,
            Token::LParen,
            Token::Int(3),
            Token::Minus,
            Token::Int(45),
            Token::RParen,
            Token::Slash,
            Token::Int(6)
        ])
    );
}

#[test]
fn tokenize_leading_zeros() {
    assert_eq!(
        tokenize("000000000000000000000000000042"),
        Ok(vec![Token::Int(42)])
    );
}

#[test]
fn tokenize_largest_literal() {
    assert_eq!(
        tokenize("9223372036854775807"),
        Ok(vec![Token::Int(i64::MAX)])
    );
}

#[test]
fn tokenize_checked_reports_too_large_literal() {
    assert_eq!(tokenize_checked("9223372036854775808"), None);
    assert_eq!(tokenize_checked("1 + 99999999999999999999 + a"), None);
}

#[test]
fn tokenize_checked_stops_at_bad_char_before_large_literal() {
    assert_eq!(
        tokenize_checked("a 99999999999999999999"),
        Some(Err("unexpected character: a".to_string()))
    );
}

#[test]
fn tokenize_checked_agrees_with_tokenize() {
    assert_eq!(tokenize_checked("(1+2)"), Some(tokenize("(1+2)")));
}

// --- parser errors and shapes ---

#[test]
fn parse_missing_closing_paren() {
    assert_eq!(
        parse(vec![Token::LParen, Token::Int(1), Token::Plus, Token::Int(2)]),
        Err("expected closing parenthesis".to_string())
    );
}

#[test]
fn parse_trailing_token_is_error() {
    assert_eq!(
        parse(vec![Token::Int(1), Token::Int(2)]),
        Err("unexpected token: Int(2)".to_string())
    );
    assert_eq!(
        parse(vec![Token::Int(1), Token::RParen]),
        Err("unexpected token: RParen".to_string())
    );
}

#[test]
fn parse_unexpected_token_uses_debug_form() {
    for t in [Token::Plus, Token::Star, Token::Slash, Token::RParen] {
        assert_eq!(parse(vec![t.clone()]), Err(format!("unexpected token: {:?}", t)));
    }
    let t = Token::Int(-42);
    assert_eq!(
        parse(vec![Token::Int(1), t.clone()]),
        Err(format!("unexpected token: {:?}", t))
    );
}

#[test]
fn parse_dangling_operator_is_end_of_input() {
    assert_eq!(
        parse(vec![Token::Int(1), Token::Plus]),
        Err("unexpected end of input".to_string())
    );
}

#[test]
fn parse_left_associative() {
    assert_eq!(
        parse(vec![Token::Int(8), Token::Minus, Token::Int(3), Token::Minus, Token::Int(2)]),
        Ok(Expr::Sub(Box::new(Expr::Sub(lit(8), lit(3))), lit(2)))
    );
    assert_eq!(
        parse(vec![Token::Int(8), Token::Slash, Token::Int(4), Token::Star, Token::Int(2)]),
        Ok(Expr::Mul(Box::new(Expr::Div(lit(8), lit(4))), lit(2)))
    );
}

#[test]
fn parse_nested_unary_minus() {
    assert_eq!(
        parse(vec![Token::Minus, Token::Minus, Token::Int(5)]),
        Ok(Expr::Neg(Box::new(Expr::Neg(lit(5)))))
    );
}

// --- compiler and stack machine ---

#[test]
fn compile_is_postfix() {
    let e = Expr::Add(lit(1), Box::new(Expr::Mul(lit(2), Box::new(Expr::Neg(lit(3))))));
    assert_eq!(
        compile(&e),
        vec![
            Instr::Push(1),
            Instr::Push(2),
            Instr::Push(3),
            Instr::Neg,
            Instr::Mul,
            Instr::Add
        ]
    );
}

#[test]
fn compile_then_run_complex_expr() {
    // 1 + 2 * (3 - 4) = -1
    let expr = Expr::Add(
        lit(1),
        Box::new(Expr::Mul(lit(2), Box::new(Expr::Sub(lit(3), lit(4))))),
    );
    assert_eq!(run(&compile(&expr)), Ok(-1));
}

#[test]
fn run_each_operator() {
    assert_eq!(run(&compile(&Expr::Lit(7))), Ok(7));
    assert_eq!(run(&compile(&Expr::Add(lit(3), lit(4)))), Ok(7));
    assert_eq!(run(&compile(&Expr::Sub(lit(5), lit(3)))), Ok(2));
    assert_eq!(run(&compile(&Expr::Mul(lit(2), lit(6)))), Ok(12));
    assert_eq!(run(&compile(&Expr::Div(lit(6), lit(3)))), Ok(2));
    assert_eq!(run(&compile(&Expr::Neg(lit(5)))), Ok(-5));
}

#[test]
fn run_division_truncates_toward_zero() {
    assert_eq!(run(&[Instr::Push(-7), Instr::Push(2), Instr::Div]), Ok(-3));
    assert_eq!(run(&[Instr::Push(7), Instr::Push(-2), Instr::Div]), Ok(-3));
    assert_eq!(run(&[Instr::Push(-7), Instr::Push(-2), Instr::Div]), Ok(3));
}

#[test]
fn run_division_by_zero() {
    let e = Expr::Add(lit(1), Box::new(Expr::Div(lit(1), lit(0))));
    assert_eq!(run(&compile(&e)), Err("division by zero".to_string()));
}

#[test]
fn run_stack_underflow() {
    assert_eq!(run(&[Instr::Add]), Err("stack underflow".to_string()));
    assert_eq!(run(&[Instr::Push(1), Instr::Sub]), Err("stack underflow".to_string()));
    assert_eq!(run(&[Instr::Neg]), Err("stack underflow".to_string()));
}

#[test]
fn run_bad_final_stack() {
    assert_eq!(run(&[]), Err("invalid stack state after execution".to_string()));
    assert_eq!(
        run(&[Instr::Push(1), Instr::Push(2)]),
        Err("invalid stack state after execution".to_string())
    );
}

#[test]
fn run_extremes_within_range() {
    assert_eq!(
        run(&[Instr::Push(i64::MIN), Instr::Push(1), Instr::Div]),
        Ok(i64::MIN)
    );
    assert_eq!(run(&[Instr::Push(i64::MAX), Instr::Neg]), Ok(-i64::MAX));
}

#[test]
fn source_to_value_pipeline() {
    let tokens = tokenize(" -(2 + 3) * 4 - 10 / 3 ").unwrap();
    let expr = parse(tokens).unwrap();
    assert_eq!(run(&compile(&expr)), Ok(-23));
}
