//! Lexer, parser, compiler to stack-machine code, and the stack machine.
//!
//! Grammar accepted by [`parse`]:
//!
//! ```text
//! expr   ::= term   (('+' | '-') term)*
//! term   ::= factor (('*' | '/') factor)*
//! factor ::= INT | '(' expr ')' | '-' factor
//! ```
use vstd::prelude::*;

use crate::text::{int_text, push_char, push_int};

verus! {

#[derive(Debug, PartialEq, Eq, Structural, Clone, Copy)]
pub enum Token {
    Int(i64),
    Plus,
    Minus,
    Star,
    Slash,
    LParen,
    RParen,
}

#[derive(Debug, PartialEq)]
pub enum Expr {
    Lit(i64),
    Add(Box<Expr>, Box<Expr>),
    Sub(Box<Expr>, Box<Expr>),
    Mul(Box<Expr>, Box<Expr>),
    Div(Box<Expr>, Box<Expr>),
    Neg(Box<Expr>),
}

#[derive(Debug, PartialEq, Eq, Structural, Clone, Copy)]
pub enum Instr {
    Push(i64),
    Add,
    Sub,
    Mul,
    Div,
    Neg,
}

// ---------------------------------------------------------------------------
// Lexer
// ---------------------------------------------------------------------------

/// ASCII whitespace: space, tab, line feed, form feed, carriage return.
pub open spec fn is_blank(c: char) -> bool {
    c == ' ' || c == '\t' || c == '\n' || c == '\x0C' || c == '\r'
}

pub open spec fn is_digit(c: char) -> bool {
    '0' <= c && c <= '9'
}

pub open spec fn digit_value(c: char) -> nat {
    ((c as int) - ('0' as int)) as nat
}

/// The token that a single operator or parenthesis character stands for.
pub open spec fn symbol_token(c: char) -> Option<Token> {
    if c == '+' {
        Some(Token::Plus)
    } else if c == '-' {
        Some(Token::Minus)
    } else if c == '*' {
        Some(Token::Star)
    } else if c == '/' {
        Some(Token::Slash)
    } else if c == '(' {
        Some(Token::LParen)
    } else if c == ')' {
        Some(Token::RParen)
    } else {
        None
    }
}

pub open spec fn unexpected_char_message(c: char) -> Seq<char> {
    "unexpected character: "@.push(c)
}

/// Puts `t` in front of the tokens of a successful outcome.
pub open spec fn prepend_token(
    t: Token,
    rest: Option<Result<Seq<Token>, Seq<char>>>,
) -> Option<Result<Seq<Token>, Seq<char>>> {
    match rest {
        Some(Ok(ts)) => Some(Ok(seq![t] + ts)),
        other => other,
    }
}

/// Lexes `s` from position `i` on. The outcome is `None` where a literal
/// does not fit in an `i64` (lexing stops there), otherwise the tokens or
/// the message for the first character that starts no token.
pub open spec fn lex_from(s: Seq<char>, i: int) -> Option<Result<Seq<Token>, Seq<char>>>
    decreases s.len() - i, 0int,
{
    if i < 0 || i >= s.len() {
        Some(Ok(seq![]))
    } else if is_blank(s[i]) {
        lex_from(s, i + 1)
    } else if is_digit(s[i]) {
        lex_number(s, i + 1, digit_value(s[i]))
    } else {
        match symbol_token(s[i]) {
            Some(t) => prepend_token(t, lex_from(s, i + 1)),
            None => Some(Err(unexpected_char_message(s[i]))),
        }
    }
}

/// Lexes `s` from position `i` on, inside a run of digits whose value so far
/// is `acc`; the run's whole value must fit in an `i64`.
pub open spec fn lex_number(s: Seq<char>, i: int, acc: nat) -> Option<
    Result<Seq<Token>, Seq<char>>,
>
    decreases s.len() - i, 1int,
{
    if 0 <= i < s.len() && is_digit(s[i]) {
        lex_number(s, i + 1, acc * 10 + digit_value(s[i]))
    } else if acc > i64::MAX {
        None
    } else {
        prepend_token(Token::Int(acc as i64), lex_from(s, i))
    }
}

/// What [`tokenize`] does with the characters `s`.
pub open spec fn lex(s: Seq<char>) -> Option<Result<Seq<Token>, Seq<char>>> {
    lex_from(s, 0)
}

/// Puts `prefix` in front of the tokens of a successful outcome.
pub open spec fn with_prefix(
    prefix: Seq<Token>,
    rest: Option<Result<Seq<Token>, Seq<char>>>,
) -> Option<Result<Seq<Token>, Seq<char>>> {
    match rest {
        Some(Ok(ts)) => Some(Ok(prefix + ts)),
        other => other,
    }
}

pub open spec fn tokens_view(r: Result<Vec<Token>, String>) -> Result<Seq<Token>, Seq<char>> {
    match r {
        Ok(v) => Ok(v@),
        Err(e) => Err(e@),
    }
}

pub open spec fn checked_tokens_view(r: Option<Result<Vec<Token>, String>>) -> Option<
    Result<Seq<Token>, Seq<char>>,
> {
    match r {
        Some(x) => Some(tokens_view(x)),
        None => None,
    }
}

proof fn lemma_number_too_large(s: Seq<char>, i: int, acc: nat)
    requires
        acc > i64::MAX,
    ensures
        lex_number(s, i, acc) is None,
    decreases s.len() - i,
{
    if 0 <= i < s.len() && is_digit(s[i]) {
        lemma_number_too_large(s, i + 1, acc * 10 + digit_value(s[i]));
    }
}

fn char_is_blank(c: char) -> (b: bool)
    ensures
        b == is_blank(c),
{
    c == ' ' || c == '\t' || c == '\n' || c == '\x0C' || c == '\r'
}

fn char_is_digit(c: char) -> (b: bool)
    ensures
        b == is_digit(c),
{
    '0' <= c && c <= '9'
}

fn char_symbol(c: char) -> (t: Option<Token>)
    ensures
        t == symbol_token(c),
{
    if c == '+' {
        Some(Token::Plus)
    } else if c == '-' {
        Some(Token::Minus)
    } else if c == '*' {
        Some(Token::Star)
    } else if c == '/' {
        Some(Token::Slash)
    } else if c == '(' {
        Some(Token::LParen)
    } else if c == ')' {
        Some(Token::RParen)
    } else {
        None
    }
}

fn collect_chars(src: &str) -> (v: Vec<char>)
    ensures
        v@ == src@,
{
    let mut v: Vec<char> = Vec::new();
    for c in it: src.chars()
        invariant
            v@ == it.seq().take(it.index() as int),
    {
        v.push(c);
    }
    v
}

/// Lexes `src`, or returns `None` where a literal does not fit in an `i64`
/// (the inputs that [`tokenize`]'s precondition leaves out).
pub fn tokenize_checked(src: &str) -> (r: Option<Result<Vec<Token>, String>>)
    ensures
        checked_tokens_view(r) == lex(src@),
{
    let chars = collect_chars(src);
    let ghost s = src@;
    let mut tokens: Vec<Token> = Vec::new();
    let mut i: usize = 0;
    while i < chars.len()
        invariant
            s == src@,
            chars@ == s,
            i <= chars.len(),
            lex(s) == with_prefix(tokens@, lex_from(s, i as int)),
        decreases chars.len() - i,
    {
        let c = chars[i];
        if char_is_blank(c) {
            i = i + 1;
        } else if char_is_digit(c) {
            let ghost start = i;
            let mut acc: u128 = ((c as u32) - ('0' as u32)) as u128;
            i = i + 1;
            while i < chars.len() && char_is_digit(chars[i])
                invariant
                    s == src@,
                    chars@ == s,
                    start < i <= chars.len(),
                    acc <= i64::MAX,
                    lex(s) == with_prefix(tokens@, lex_number(s, i as int, acc as nat)),
                decreases chars.len() - i,
            {
                let d: u128 = ((chars[i] as u32) - ('0' as u32)) as u128;
                acc = acc * 10 + d;
                i = i + 1;
                if acc > (i64::MAX as u128) {
                    proof {
                        lemma_number_too_large(s, i as int, acc as nat);
                    }
                    return None;
                }
            }
            let ghost before = tokens@;
            tokens.push(Token::Int(acc as i64));
            proof {
                let rest = lex_from(s, i as int);
                if let Some(Ok(ts)) = rest {
                    assert(before + (seq![Token::Int(acc as i64)] + ts) =~= tokens@ + ts);
                }
            }
        } else {
            match char_symbol(c) {
                Some(t) => {
                    let ghost before = tokens@;
                    tokens.push(t);
                    i = i + 1;
                    proof {
                        let rest = lex_from(s, i as int);
                        if let Some(Ok(ts)) = rest {
                            assert(before + (seq![t] + ts) =~= tokens@ + ts);
                        }
                    }
                },
                None => {
                    let mut msg = String::from_str("unexpected character: ");
                    push_char(&mut msg, c);
                    return Some(Err(msg));
                },
            }
        }
    }
    Some(Ok(tokens))
}

/// Splits `src` into tokens, skipping ASCII whitespace; fails on the first
/// character that starts no token. A literal that does not fit in an `i64`
/// is a panic, so such inputs are outside this function's precondition;
/// [`tokenize_checked`] reports them instead.
pub fn tokenize(src: &str) -> (r: Result<Vec<Token>, String>)
    requires
        lex(src@) is Some,
    ensures
        lex(src@) == Some(tokens_view(r)),
{
    match tokenize_checked(src) {
        Some(r) => r,
        None => {
            assert(false);
            Ok(Vec::new())
        },
    }
}


// ---------------------------------------------------------------------------
// Parser
// ---------------------------------------------------------------------------

/// How `{:?}` writes a token.
pub open spec fn token_text(t: Token) -> Seq<char> {
    match t {
        Token::Int(n) => "Int("@ + int_text(n as int) + ")"@,
        Token::Plus => "Plus"@,
        Token::Minus => "Minus"@,
        Token::Star => "Star"@,
        Token::Slash => "Slash"@,
        Token::LParen => "LParen"@,
        Token::RParen => "RParen"@,
    }
}

pub open spec fn unexpected_token_message(t: Token) -> Seq<char> {
    "unexpected token: "@ + token_text(t)
}

pub open spec fn end_of_input_message() -> Seq<char> {
    "unexpected end of input"@
}

pub open spec fn missing_paren_message() -> Seq<char> {
    "expected closing parenthesis"@
}

/// Tokens left from position `pos` on.
pub open spec fn tokens_left(toks: Seq<Token>, pos: int) -> int {
    if pos <= toks.len() {
        toks.len() - pos
    } else {
        0
    }
}

/// The outcome of a parsing step: the tree and how many tokens it took, or
/// the error message and how far the cursor had moved when it failed.
pub type Parsed = Result<(Expr, nat), (Seq<char>, nat)>;

/// Moves the cursor of a failure `k` tokens further back.
pub open spec fn failed_after(k: nat, msg: Seq<char>, n: nat) -> Parsed {
    Err((msg, k + n))
}

/// Parses an `expr` at `pos`.
pub open spec fn expr_at(toks: Seq<Token>, pos: int) -> Parsed
    decreases tokens_left(toks, pos), 4int,
{
    match term_at(toks, pos) {
        Ok((left, n)) => expr_tail(toks, pos + n, left, n),
        Err(f) => Err(f),
    }
}

/// Continues an `expr` at `pos`, after `used` tokens that gave `left`.
pub open spec fn expr_tail(toks: Seq<Token>, pos: int, left: Expr, used: nat) -> Parsed
    decreases tokens_left(toks, pos), 3int,
{
    if 0 <= pos < toks.len() && (toks[pos] == Token::Plus || toks[pos] == Token::Minus) {
        match term_at(toks, pos + 1) {
            Ok((right, n)) => {
                let e = if toks[pos] == Token::Plus {
                    Expr::Add(Box::new(left), Box::new(right))
                } else {
                    Expr::Sub(Box::new(left), Box::new(right))
                };
                expr_tail(toks, pos + 1 + n, e, used + 1 + n)
            },
            Err((msg, n)) => failed_after(used + 1, msg, n),
        }
    } else {
        Ok((left, used))
    }
}

/// Parses a `term` at `pos`.
pub open spec fn term_at(toks: Seq<Token>, pos: int) -> Parsed
    decreases tokens_left(toks, pos), 2int,
{
    match factor_at(toks, pos) {
        Ok((left, n)) => term_tail(toks, pos + n, left, n),
        Err(f) => Err(f),
    }
}

/// Continues a `term` at `pos`, after `used` tokens that gave `left`.
pub open spec fn term_tail(toks: Seq<Token>, pos: int, left: Expr, used: nat) -> Parsed
    decreases tokens_left(toks, pos), 1int,
{
    if 0 <= pos < toks.len() && (toks[pos] == Token::Star || toks[pos] == Token::Slash) {
        match factor_at(toks, pos + 1) {
            Ok((right, n)) => {
                let e = if toks[pos] == Token::Star {
                    Expr::Mul(Box::new(left), Box::new(right))
                } else {
                    Expr::Div(Box::new(left), Box::new(right))
                };
                term_tail(toks, pos + 1 + n, e, used + 1 + n)
            },
            Err((msg, n)) => failed_after(used + 1, msg, n),
        }
    } else {
        Ok((left, used))
    }
}

/// Parses a `factor` at `pos`.
pub open spec fn factor_at(toks: Seq<Token>, pos: int) -> Parsed
    decreases tokens_left(toks, pos), 0int,
{
    if pos < 0 || pos >= toks.len() {
        Err((end_of_input_message(), 0))
    } else {
        match toks[pos] {
            Token::Int(n) => Ok((Expr::Lit(n), 1)),
            Token::LParen => match expr_at(toks, pos + 1) {
                Ok((e, n)) => if pos + 1 + n < toks.len() && toks[pos + 1 + n] == Token::RParen {
                    Ok((e, n + 2))
                } else {
                    Err((missing_paren_message(), n + 1))
                },
                Err((msg, n)) => failed_after(1, msg, n),
            },
            Token::Minus => match factor_at(toks, pos + 1) {
                Ok((e, n)) => Ok((Expr::Neg(Box::new(e)), n + 1)),
                Err((msg, n)) => failed_after(1, msg, n),
            },
            t => Err((unexpected_token_message(t), 0)),
        }
    }
}

/// What [`parse`] gives for the tokens `toks`: the whole sequence must be
/// one `expr`.
pub open spec fn parse_tokens(toks: Seq<Token>) -> Result<Expr, Seq<char>> {
    match expr_at(toks, 0) {
        Ok((e, n)) => if n < toks.len() {
            Err(unexpected_token_message(toks[n as int]))
        } else {
            Ok(e)
        },
        Err((msg, _)) => Err(msg),
    }
}

pub open spec fn expr_view(r: Result<Expr, String>) -> Result<Expr, Seq<char>> {
    match r {
        Ok(e) => Ok(e),
        Err(s) => Err(s@),
    }
}

/// The outcome of a parsing step that started at `start` and left the
/// cursor at `end`, against the specified outcome `spec`.
pub open spec fn step_matches(r: Result<Expr, String>, start: usize, end: usize, spec: Parsed) -> bool {
    match spec {
        Ok((e, n)) => r == Ok::<Expr, String>(e) && end == start + n,
        Err((msg, n)) => (r matches Err(s) && s@ == msg) && end == start + n,
    }
}

fn token_to_text(t: &Token) -> (s: String)
    ensures
        s@ == token_text(*t),
{
    match t {
        Token::Int(n) => {
            let mut s = String::from_str("Int(");
            push_int(&mut s, *n);
            s.append(")");
            s
        },
        Token::Plus => String::from_str("Plus"),
        Token::Minus => String::from_str("Minus"),
        Token::Star => String::from_str("Star"),
        Token::Slash => String::from_str("Slash"),
        Token::LParen => String::from_str("LParen"),
        Token::RParen => String::from_str("RParen"),
    }
}

fn unexpected_token(t: &Token) -> (s: String)
    ensures
        s@ == unexpected_token_message(*t),
{
    let mut s = String::from_str("unexpected token: ");
    let tt = token_to_text(t);
    s.append(tt.as_str());
    s
}

fn additive_at(tokens: &[Token], pos: usize) -> (b: bool)
    ensures
        b == (pos < tokens@.len() && (tokens@[pos as int] == Token::Plus || tokens@[pos as int]
            == Token::Minus)),
{
    pos < tokens.len() && (tokens[pos] == Token::Plus || tokens[pos] == Token::Minus)
}

fn multiplicative_at(tokens: &[Token], pos: usize) -> (b: bool)
    ensures
        b == (pos < tokens@.len() && (tokens@[pos as int] == Token::Star || tokens@[pos as int]
            == Token::Slash)),
{
    pos < tokens.len() && (tokens[pos] == Token::Star || tokens[pos] == Token::Slash)
}

/// Parses the tokens as one expression; all of them must be used.
pub fn parse(tokens: Vec<Token>) -> (r: Result<Expr, String>)
    ensures
        expr_view(r) == parse_tokens(tokens@),
{
    let mut pos: usize = 0;
    let expr = match parse_expr(tokens.as_slice(), &mut pos) {
        Ok(e) => e,
        Err(msg) => return Err(msg),
    };
    if pos < tokens.len() {
        return Err(unexpected_token(&tokens[pos]));
    }
    Ok(expr)
}

fn parse_expr(tokens: &[Token], pos: &mut usize) -> (r: Result<Expr, String>)
    ensures
        step_matches(r, *old(pos), *final(pos), expr_at(tokens@, *old(pos) as int)),
        r is Ok ==> *final(pos) <= tokens@.len(),
    decreases tokens_left(tokens@, *old(pos) as int), 4int,
{
    let ghost start: usize = *pos;
    let mut left = match parse_term(tokens, pos) {
        Ok(e) => e,
        Err(msg) => return Err(msg),
    };
    while additive_at(tokens, *pos)
        invariant
            start == *old(pos),
            start <= *pos <= tokens@.len(),
            expr_at(tokens@, start as int) == expr_tail(
                tokens@,
                *pos as int,
                left,
                (*pos - start) as nat,
            ),
        decreases tokens@.len() - *pos,
    {
        let is_add = tokens[*pos] == Token::Plus;
        *pos = *pos + 1;
        let right = match parse_term(tokens, pos) {
            Ok(e) => e,
            Err(msg) => return Err(msg),
        };
        left = if is_add {
            Expr::Add(Box::new(left), Box::new(right))
        } else {
            Expr::Sub(Box::new(left), Box::new(right))
        };
    }
    Ok(left)
}

fn parse_term(tokens: &[Token], pos: &mut usize) -> (r: Result<Expr, String>)
    ensures
        step_matches(r, *old(pos), *final(pos), term_at(tokens@, *old(pos) as int)),
        r is Ok ==> *final(pos) <= tokens@.len(),
    decreases tokens_left(tokens@, *old(pos) as int), 2int,
{
    let ghost start: usize = *pos;
    let mut left = match parse_factor(tokens, pos) {
        Ok(e) => e,
        Err(msg) => return Err(msg),
    };
    while multiplicative_at(tokens, *pos)
        invariant
            start == *old(pos),
            start <= *pos <= tokens@.len(),
            term_at(tokens@, start as int) == term_tail(
                tokens@,
                *pos as int,
                left,
                (*pos - start) as nat,
            ),
        decreases tokens@.len() - *pos,
    {
        let is_mul = tokens[*pos] == Token::Star;
        *pos = *pos + 1;
        let right = match parse_factor(tokens, pos) {
            Ok(e) => e,
            Err(msg) => return Err(msg),
        };
        left = if is_mul {
            Expr::Mul(Box::new(left), Box::new(right))
        } else {
            Expr::Div(Box::new(left), Box::new(right))
        };
    }
    Ok(left)
}

fn parse_factor(tokens: &[Token], pos: &mut usize) -> (r: Result<Expr, String>)
    ensures
        step_matches(r, *old(pos), *final(pos), factor_at(tokens@, *old(pos) as int)),
        r is Ok ==> *final(pos) <= tokens@.len(),
    decreases tokens_left(tokens@, *old(pos) as int), 0int,
{
    if *pos >= tokens.len() {
        return Err(String::from_str("unexpected end of input"));
    }
    match tokens[*pos] {
        Token::Int(n) => {
            *pos = *pos + 1;
            Ok(Expr::Lit(n))
        },
        Token::LParen => {
            *pos = *pos + 1;
            let expr = match parse_expr(tokens, pos) {
                Ok(e) => e,
                Err(msg) => return Err(msg),
            };
            if *pos < tokens.len() && tokens[*pos] == Token::RParen {
                *pos = *pos + 1;
                Ok(expr)
            } else {
                Err(String::from_str("expected closing parenthesis"))
            }
        },
        Token::Minus => {
            *pos = *pos + 1;
            let expr = match parse_factor(tokens, pos) {
                Ok(e) => e,
                Err(msg) => return Err(msg),
            };
            Ok(Expr::Neg(Box::new(expr)))
        },
        _ => Err(unexpected_token(&tokens[*pos])),
    }
}


// ---------------------------------------------------------------------------
// Compiler: Expr -> stack-machine code
// ---------------------------------------------------------------------------

/// Postfix code for `e`: operands first, then the operator.
pub open spec fn compile_expr(e: Expr) -> Seq<Instr>
    decreases e,
{
    match e {
        Expr::Lit(n) => seq![Instr::Push(n)],
        Expr::Add(l, r) => compile_expr(*l) + compile_expr(*r) + seq![Instr::Add],
        Expr::Sub(l, r) => compile_expr(*l) + compile_expr(*r) + seq![Instr::Sub],
        Expr::Mul(l, r) => compile_expr(*l) + compile_expr(*r) + seq![Instr::Mul],
        Expr::Div(l, r) => compile_expr(*l) + compile_expr(*r) + seq![Instr::Div],
        Expr::Neg(x) => compile_expr(*x) + seq![Instr::Neg],
    }
}

/// Compiles `expr` to code for the stack machine.
pub fn compile(expr: &Expr) -> (v: Vec<Instr>)
    ensures
        v@ == compile_expr(*expr),
    decreases *expr,
{
    match expr {
        Expr::Lit(n) => {
            let mut v = Vec::new();
            v.push(Instr::Push(*n));
            v
        },
        Expr::Add(l, r) => {
            let mut v = compile(l);
            let mut w = compile(r);
            v.append(&mut w);
            v.push(Instr::Add);
            v
        },
        Expr::Sub(l, r) => {
            let mut v = compile(l);
            let mut w = compile(r);
            v.append(&mut w);
            v.push(Instr::Sub);
            v
        },
        Expr::Mul(l, r) => {
            let mut v = compile(l);
            let mut w = compile(r);
            v.append(&mut w);
            v.push(Instr::Mul);
            v
        },
        Expr::Div(l, r) => {
            let mut v = compile(l);
            let mut w = compile(r);
            v.append(&mut w);
            v.push(Instr::Div);
            v
        },
        Expr::Neg(e) => {
            let mut v = compile(e);
            v.push(Instr::Neg);
            v
        },
    }
}


// ---------------------------------------------------------------------------
// Stack machine
// ---------------------------------------------------------------------------

pub open spec fn fits_i64(x: int) -> bool {
    i64::MIN <= x <= i64::MAX
}

/// Rust's `/` on integers: the quotient rounded toward zero.
pub open spec fn trunc_div(a: int, b: int) -> int {
    if a >= 0 {
        a / b
    } else {
        -((-a) / b)
    }
}

pub open spec fn underflow_message() -> Seq<char> {
    "stack underflow"@
}

pub open spec fn division_by_zero_message() -> Seq<char> {
    "division by zero"@
}

pub open spec fn bad_final_stack_message() -> Seq<char> {
    "invalid stack state after execution"@
}

/// One instruction on a stack of mathematical integers (top at the end).
pub open spec fn step(ins: Instr, st: Seq<int>) -> Result<Seq<int>, Seq<char>> {
    match ins {
        Instr::Push(n) => Ok(st.push(n as int)),
        Instr::Neg => if st.len() < 1 {
            Err(underflow_message())
        } else {
            Ok(st.drop_last().push(-st.last()))
        },
        _ => if st.len() < 2 {
            Err(underflow_message())
        } else {
            let a = st[st.len() - 2];
            let b = st.last();
            let rest = st.drop_last().drop_last();
            match ins {
                Instr::Add => Ok(rest.push(a + b)),
                Instr::Sub => Ok(rest.push(a - b)),
                Instr::Mul => Ok(rest.push(a * b)),
                _ => if b == 0 {
                    Err(division_by_zero_message())
                } else {
                    Ok(rest.push(trunc_div(a, b)))
                },
            }
        },
    }
}

/// Runs `prog` from the stack `st`: the final stack, or the first error.
pub open spec fn run_from(prog: Seq<Instr>, st: Seq<int>) -> Result<Seq<int>, Seq<char>>
    decreases prog.len(),
{
    if prog.len() == 0 {
        Ok(st)
    } else {
        match step(prog[0], st) {
            Ok(next) => run_from(prog.drop_first(), next),
            Err(msg) => Err(msg),
        }
    }
}

/// Every value that running `prog` from `st` computes fits in an `i64`
/// (up to the first error); otherwise the machine's `i64` arithmetic
/// overflows, which panics.
pub open spec fn stays_in_range(prog: Seq<Instr>, st: Seq<int>) -> bool
    decreases prog.len(),
{
    prog.len() == 0 || match step(prog[0], st) {
        Ok(next) => fits_i64(next.last()) && stays_in_range(prog.drop_first(), next),
        Err(_) => true,
    }
}

pub open spec fn final_value(r: Result<Seq<int>, Seq<char>>) -> Result<int, Seq<char>> {
    match r {
        Ok(st) => if st.len() == 1 {
            Ok(st[0])
        } else {
            Err(bad_final_stack_message())
        },
        Err(msg) => Err(msg),
    }
}

/// What [`run`] computes for `prog`, on an empty stack.
pub open spec fn run_program(prog: Seq<Instr>) -> Result<int, Seq<char>> {
    final_value(run_from(prog, seq![]))
}

pub open spec fn value_view(r: Result<i64, String>) -> Result<int, Seq<char>> {
    match r {
        Ok(v) => Ok(v as int),
        Err(s) => Err(s@),
    }
}

pub open spec fn widen(s: Seq<i64>) -> Seq<int> {
    s.map_values(|x: i64| x as int)
}

proof fn lemma_widen_push(s: Seq<i64>, x: i64)
    ensures
        widen(s.push(x)) == widen(s).push(x as int),
{
    assert(widen(s.push(x)) =~= widen(s).push(x as int));
}

proof fn lemma_widen_drop_last(s: Seq<i64>)
    requires
        s.len() > 0,
    ensures
        widen(s.drop_last()) == widen(s).drop_last(),
{
    assert(widen(s.drop_last()) =~= widen(s).drop_last());
}

/// Runs stack-machine code and returns the single value left on the stack.
/// Inputs on which the machine's `i64` arithmetic would overflow (a panic)
/// are left out.
pub fn run(instrs: &[Instr]) -> (r: Result<i64, String>)
    requires
        stays_in_range(instrs@, seq![]),
    ensures
        value_view(r) == run_program(instrs@),
{
    let ghost prog = instrs@;
    let mut stack: Vec<i64> = Vec::new();
    let mut i: usize = 0;
    assert(prog.skip(0) =~= prog);
    assert(widen(stack@) =~= seq![]);
    while i < instrs.len()
        invariant
            prog == instrs@,
            i <= prog.len(),
            run_program(prog) == final_value(run_from(prog.skip(i as int), widen(stack@))),
            stays_in_range(prog.skip(i as int), widen(stack@)),
        decreases prog.len() - i,
    {
        let ghost rest = prog.skip(i as int);
        assert(rest.drop_first() =~= prog.skip(i + 1));
        match instrs[i] {
            Instr::Push(n) => {
                proof { lemma_widen_push(stack@, n); }
                stack.push(n);
            },
            Instr::Neg => {
                let ghost before = stack@;
                let a = match stack.pop() {
                    Some(x) => x,
                    None => return Err(String::from_str("stack underflow")),
                };
                proof { lemma_widen_drop_last(before); }
                let v = -a;
                proof { lemma_widen_push(stack@, v); }
                stack.push(v);
            },
            ins => {
                let ghost before = stack@;
                let b = match stack.pop() {
                    Some(x) => x,
                    None => return Err(String::from_str("stack underflow")),
                };
                let ghost middle = stack@;
                let a = match stack.pop() {
                    Some(x) => x,
                    None => return Err(String::from_str("stack underflow")),
                };
                proof {
                    lemma_widen_drop_last(before);
                    lemma_widen_drop_last(middle);
                    let wide = widen(before);
                    assert(wide.last() == b as int);
                    assert(wide[wide.len() - 2] == a as int);
                    assert(wide.drop_last().drop_last() == widen(stack@));
                }
                let v = match ins {
                    Instr::Add => a + b,
                    Instr::Sub => a - b,
                    Instr::Mul => a * b,
                    _ => {
                        if b == 0 {
                            return Err(String::from_str("division by zero"));
                        }
                        proof {
                            assert(fits_i64(trunc_div(a as int, b as int)));
                            if a == i64::MIN && b == -1 {
                                assert(trunc_div(a as int, b as int) == 0x8000_0000_0000_0000int);
                            }
                        }
                        a / b
                    },
                };
                proof { lemma_widen_push(stack@, v); }
                stack.push(v);
            },
        }
        i = i + 1;
    }
    if stack.len() == 1 {
        Ok(stack[0])
    } else {
        Err(String::from_str("invalid stack state after execution"))
    }
}

} // verus!
