use minclang::compiler::{compile, parse, tokenize, Expr, Token};

fn source(t: &Token) -> String {
    match t {
        Token::Int(n) => n.to_string(),
        Token::Plus => "+".to_string(),
        Token::Minus => "-".to_string(),
        Token::Star => "*".to_string(),
        Token::Slash => "/".to_string(),
        Token::LParen => "(".to_string(),
        Token::RParen => ")".to_string(),
    }
}

fn render(ts: &[Token]) -> String {
    ts.iter().map(source).collect::<Vec<_>>().join(" ")
}

fn parenthesized(e: &Expr) -> Vec<Token> {
    let bin = |l: &Expr, op: Token, r: &Expr| {
        let mut v = vec![Token::LParen];
        v.extend(parenthesized(l));
        v.push(op);
        v.extend(parenthesized(r));
        v.push(Token::RParen);
        v
    };
    match e {
        Expr::Lit(n) => vec![Token::Int(*n)],
        Expr::Add(l, r) => bin(l, Token::Plus, r),
        Expr::Sub(l, r) => bin(l, Token::Minus, r),
        Expr::Mul(l, r) => bin(l, Token::Star, r),
        Expr::Div(l, r) => bin(l, Token::Slash, r),
        Expr::Neg(x) => {
            let mut v = vec![Token::LParen, Token::Minus];
            v.extend(parenthesized(x));
            v.push(Token::RParen);
            v
        }
    }
}

fn lit(n: i64) -> Box<Expr> {
    Box::new(Expr::Lit(n))
}

fn sample() -> Expr {
    Expr::Sub(
        Box::new(Expr::Div(Box::new(Expr::Neg(lit(7))), lit(2))),
        Box::new(Expr::Add(lit(1), Box::new(Expr::Mul(lit(-3), lit(4))))),
    )
}

#[test]
fn lexing_rendered_tokens_gives_them_back() {
    let toks = vec![
        Token::LParen,
        Token::Int(12),
        Token::Plus,
        Token::Int(0),
        Token::RParen,
        Token::Star,
        Token::Minus,
        Token::Int(9223372036854775807),
        Token::Slash,
        Token::Int(4),
    ];
    assert_eq!(tokenize(&render(&toks)), Ok(toks));
}

#[test]
fn lexing_space_joined_texts() {
    assert_eq!(tokenize("1 2"), Ok(vec![Token::Int(1), Token::Int(2)]));
    assert_eq!(tokenize("12"), Ok(vec![Token::Int(12)]));
    let a = "(3*";
    let b = "4)";
    let mut expected = tokenize(a).unwrap();
    expected.extend(tokenize(b).unwrap());
    assert_eq!(tokenize(&format!("{a} {b}")), Ok(expected));
    assert_eq!(tokenize(&format!("{} {}", "1 ?", "x")), tokenize("1 ?"));
    assert_eq!(tokenize(&format!("{} {}", "1", "x")), tokenize("x"));
}

#[test]
fn parsing_parenthesized_tokens_gives_expression_back() {
    let e = sample();
    assert_eq!(parse(parenthesized(&e)), Ok(sample()));
    assert_eq!(parse(parenthesized(&Expr::Lit(-5))), Ok(Expr::Lit(-5)));
}

#[test]
fn different_expressions_compile_differently() {
    let left = Expr::Sub(Box::new(Expr::Sub(lit(1), lit(2))), lit(3));
    let right = Expr::Sub(lit(1), Box::new(Expr::Sub(lit(2), lit(3))));
    assert_ne!(compile(&left), compile(&right));
    assert_ne!(compile(&Expr::Neg(lit(1))), compile(&Expr::Lit(-1)));
}
