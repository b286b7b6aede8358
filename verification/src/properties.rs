//! Properties that relate the lexer, the parser and the compiler to the
//! texts and codes they read and write.
use vstd::prelude::*;

use crate::compiler::{
    compile_expr, expr_at, expr_tail, factor_at, parse_tokens, term_at, term_tail, digit_value, is_blank, is_digit, lex, lex_from, lex_number, prepend_token,
    symbol_token, with_prefix, Expr, Instr, Token,
};
use crate::text::{all_digits, digits_value, int_text, lemma_nat_text_digits, nat_text};

verus! {

proof fn lemma_last_instr(e: Expr)
    ensures
        compile_expr(e).len() > 0,
        compile_expr(e).last() == match e {
            Expr::Lit(n) => Instr::Push(n),
            Expr::Add(..) => Instr::Add,
            Expr::Sub(..) => Instr::Sub,
            Expr::Mul(..) => Instr::Mul,
            Expr::Div(..) => Instr::Div,
            Expr::Neg(..) => Instr::Neg,
        },
{
}

/// Read from its end, postfix code ends in exactly one expression: if the
/// codes of `e1` and `e2` end two equal sequences, the expressions and what
/// precedes their codes are equal.
pub proof fn lemma_code_suffix_determines_expr(e1: Expr, e2: Expr, s1: Seq<Instr>, s2: Seq<Instr>)
    requires
        s1 + compile_expr(e1) == s2 + compile_expr(e2),
    ensures
        e1 == e2,
        s1 == s2,
    decreases e1,
{
    lemma_last_instr(e1);
    lemma_last_instr(e2);
    let c1 = compile_expr(e1);
    let c2 = compile_expr(e2);
    assert((s1 + c1).last() == c1.last());
    assert((s2 + c2).last() == c2.last());
    match e1 {
        Expr::Lit(_) => {
            assert(s1 =~= (s1 + c1).drop_last());
            assert(s2 =~= (s2 + c2).drop_last());
        },
        Expr::Neg(x1) => {
            let x2 = match e2 {
                Expr::Neg(x) => *x,
                _ => arbitrary(),
            };
            assert((s1 + c1).drop_last() =~= s1 + compile_expr(*x1));
            assert((s2 + c2).drop_last() =~= s2 + compile_expr(x2));
            lemma_code_suffix_determines_expr(*x1, x2, s1, s2);
        },
        Expr::Add(l1, r1) | Expr::Sub(l1, r1) | Expr::Mul(l1, r1) | Expr::Div(l1, r1) => {
            let (l2, r2) = match e2 {
                Expr::Add(l, r) | Expr::Sub(l, r) | Expr::Mul(l, r) | Expr::Div(l, r) => (*l, *r),
                _ => arbitrary(),
            };
            assert((s1 + c1).drop_last() =~= (s1 + compile_expr(*l1)) + compile_expr(*r1));
            assert((s2 + c2).drop_last() =~= (s2 + compile_expr(l2)) + compile_expr(r2));
            lemma_code_suffix_determines_expr(*r1, r2, s1 + compile_expr(*l1), s2 + compile_expr(l2));
            lemma_code_suffix_determines_expr(*l1, l2, s1, s2);
        },
    }
}

/// Different expressions compile to different code.
pub proof fn lemma_compile_injective(e1: Expr, e2: Expr)
    requires
        compile_expr(e1) == compile_expr(e2),
    ensures
        e1 == e2,
{
    let empty = Seq::<Instr>::empty();
    assert(empty + compile_expr(e1) =~= compile_expr(e1));
    assert(empty + compile_expr(e2) =~= compile_expr(e2));
    lemma_code_suffix_determines_expr(e1, e2, empty, empty);
}



/// The literals of `e`, left to right.
pub open spec fn literals(e: Expr) -> Seq<i64>
    decreases e,
{
    match e {
        Expr::Lit(n) => seq![n],
        Expr::Add(l, r) | Expr::Sub(l, r) | Expr::Mul(l, r) | Expr::Div(l, r) => literals(*l)
            + literals(*r),
        Expr::Neg(x) => literals(*x),
    }
}

/// The values that the `Push` instructions of `code` push, in order.
pub open spec fn pushed_values(code: Seq<Instr>) -> Seq<i64>
    decreases code.len(),
{
    if code.len() == 0 {
        seq![]
    } else {
        let rest = pushed_values(code.drop_last());
        match code.last() {
            Instr::Push(n) => rest.push(n),
            _ => rest,
        }
    }
}

proof fn lemma_pushed_values_append(p: Seq<Instr>, q: Seq<Instr>)
    ensures
        pushed_values(p + q) == pushed_values(p) + pushed_values(q),
    decreases q.len(),
{
    if q.len() == 0 {
        assert(p + q =~= p);
        assert(pushed_values(p) + pushed_values(q) =~= pushed_values(p));
    } else {
        lemma_pushed_values_append(p, q.drop_last());
        assert((p + q).drop_last() =~= p + q.drop_last());
        assert((p + q).last() == q.last());
        assert(pushed_values(p + q) =~= pushed_values(p) + pushed_values(q));
    }
}

proof fn lemma_pushed_values_op(op: Instr)
    requires
        !(op is Push),
    ensures
        pushed_values(seq![op]) == Seq::<i64>::empty(),
{
    assert(seq![op].drop_last() =~= Seq::<Instr>::empty());
    assert(pushed_values(Seq::<Instr>::empty()) == Seq::<i64>::empty());
    assert(seq![op].last() == op);
}

/// The code of `e` pushes the literals of `e` in the order they are written,
/// and pushes nothing else: operands keep their left-to-right order.
pub proof fn lemma_compile_keeps_literal_order(e: Expr)
    ensures
        pushed_values(compile_expr(e)) == literals(e),
    decreases e,
{
    match e {
        Expr::Lit(n) => {
            assert(seq![Instr::Push(n)].drop_last() =~= Seq::<Instr>::empty());
            assert(pushed_values(Seq::<Instr>::empty()) == Seq::<i64>::empty());
            assert(seq![Instr::Push(n)].last() == Instr::Push(n));
            assert(Seq::<i64>::empty().push(n) =~= seq![n]);
        },
        Expr::Add(l, r) | Expr::Sub(l, r) | Expr::Mul(l, r) | Expr::Div(l, r) => {
            let op = compile_expr(e).last();
            lemma_compile_keeps_literal_order(*l);
            lemma_compile_keeps_literal_order(*r);
            lemma_pushed_values_append(compile_expr(*l), compile_expr(*r));
            lemma_pushed_values_append(compile_expr(*l) + compile_expr(*r), seq![op]);
            lemma_pushed_values_op(op);
            assert(compile_expr(e) == compile_expr(*l) + compile_expr(*r) + seq![op]);
            assert(literals(*l) + literals(*r) + Seq::<i64>::empty() =~= literals(*l) + literals(
                *r,
            ));
        },
        Expr::Neg(x) => {
            lemma_compile_keeps_literal_order(*x);
            lemma_pushed_values_append(compile_expr(*x), seq![Instr::Neg]);
            lemma_pushed_values_op(Instr::Neg);
            assert(literals(*x) + Seq::<i64>::empty() =~= literals(*x));
        },
    }
}

// ---------------------------------------------------------------------------
// Lexing
// ---------------------------------------------------------------------------

proof fn lemma_lex_shift(p: Seq<char>, s: Seq<char>, i: int, acc: nat)
    requires
        0 <= i,
    ensures
        lex_from(p + s, p.len() + i) == lex_from(s, i),
        lex_number(p + s, p.len() + i, acc) == lex_number(s, i, acc),
    decreases s.len() - i,
{
    let ps = p + s;
    if i < s.len() {
        assert(ps[p.len() + i] == s[i]);
        let c = s[i];
        lemma_lex_shift(p, s, i + 1, digit_value(c));
        lemma_lex_shift(p, s, i + 1, acc * 10 + digit_value(c));
        if !is_digit(c) {
            lemma_lex_shift(p, s, i + 1, 0);
        }
    }
}

/// Joins the outcome of lexing a first text with that of lexing a second.
pub open spec fn then_lex(
    first: Option<Result<Seq<Token>, Seq<char>>>,
    second: Option<Result<Seq<Token>, Seq<char>>>,
) -> Option<Result<Seq<Token>, Seq<char>>> {
    match first {
        Some(Ok(ts)) => with_prefix(ts, second),
        other => other,
    }
}

proof fn lemma_then_lex_prepend(t: Token, x: Option<Result<Seq<Token>, Seq<char>>>, y: Option<Result<Seq<Token>, Seq<char>>>)
    ensures
        then_lex(prepend_token(t, x), y) == prepend_token(t, then_lex(x, y)),
{
    if let Some(Ok(ts)) = x {
        if let Some(Ok(us)) = y {
            assert(seq![t] + ts + us =~= seq![t] + (ts + us));
        }
    }
}

proof fn lemma_lex_blank_join(a: Seq<char>, w: char, b: Seq<char>, i: int, acc: nat)
    requires
        0 <= i <= a.len(),
        is_blank(w),
    ensures
        lex_from(a + seq![w] + b, i) == then_lex(lex_from(a, i), lex(b)),
        lex_number(a + seq![w] + b, i, acc) == then_lex(lex_number(a, i, acc), lex(b)),
    decreases a.len() - i,
{
    let s = a + seq![w] + b;
    let p = a + seq![w];
    assert(s =~= p + b);
    lemma_lex_shift(p, b, 0, 0);
    assert(s[a.len() as int] == w);
    if i == a.len() {
        assert(lex_from(s, i) == lex_from(s, i + 1));
        assert(lex_from(a, i) == Some(Ok::<Seq<Token>, Seq<char>>(seq![])));
        lemma_then_lex_prepend(Token::Int(acc as i64), lex_from(a, i), lex(b));
    } else {
        assert(s[i] == a[i]);
        let c = a[i];
        lemma_lex_blank_join(a, w, b, i + 1, digit_value(c));
        lemma_lex_blank_join(a, w, b, i + 1, acc * 10 + digit_value(c));
        if let Some(t) = symbol_token(c) {
            lemma_then_lex_prepend(t, lex_from(a, i + 1), lex(b));
        }
        if !is_digit(c) {
            lemma_then_lex_prepend(Token::Int(acc as i64), lex_from(a, i), lex(b));
        }
    }
}

/// Lexing two texts joined by a space gives the tokens of the first, then
/// those of the second; a failure in the first text is the failure of the
/// whole.
pub proof fn lemma_lex_space_join(a: Seq<char>, b: Seq<char>)
    ensures
        lex(a + seq![' '] + b) == then_lex(lex(a), lex(b)),
{
    lemma_lex_blank_join(a, ' ', b, 0, 0);
}

/// Every ASCII whitespace character (space, tab, line feed, form feed,
/// carriage return) separates tokens as a space does, wherever it stands:
/// between two texts it joins their tokens, and at the start or the end of
/// a text it changes nothing.
pub proof fn lemma_lex_whitespace_separates(a: Seq<char>, w: char, b: Seq<char>)
    requires
        w == ' ' || w == '\t' || w == '\n' || w == '\x0C' || w == '\r',
    ensures
        lex(a + seq![w] + b) == then_lex(lex(a), lex(b)),
        lex(a + seq![w] + b) == lex(a + seq![' '] + b),
        lex(a + seq![w]) == lex(a),
        lex(seq![w] + b) == lex(b),
{
    lemma_lex_blank_join(a, w, b, 0, 0);
    lemma_lex_blank_join(a, ' ', b, 0, 0);
    let empty = Seq::<char>::empty();
    lemma_lex_blank_join(a, w, empty, 0, 0);
    assert(a + seq![w] + empty =~= a + seq![w]);
    assert(lex(empty) == Some(Ok::<Seq<Token>, Seq<char>>(seq![])));
    if let Some(Ok(ta)) = lex(a) {
        assert(ta + Seq::<Token>::empty() =~= ta);
    }
    lemma_lex_blank_join(empty, w, b, 0, 0);
    assert(empty + seq![w] + b =~= seq![w] + b);
    if let Some(Ok(tb)) = lex(b) {
        assert(Seq::<Token>::empty() + tb =~= tb);
    }
}

/// The source text of a token, with literals in decimal.
pub open spec fn token_source(t: Token) -> Seq<char> {
    match t {
        Token::Int(n) => int_text(n as int),
        Token::Plus => seq!['+'],
        Token::Minus => seq!['-'],
        Token::Star => seq!['*'],
        Token::Slash => seq!['/'],
        Token::LParen => seq!['('],
        Token::RParen => seq![')'],
    }
}

/// The source texts of the tokens, separated by single spaces.
pub open spec fn render_tokens(ts: Seq<Token>) -> Seq<char>
    decreases ts.len(),
{
    if ts.len() == 0 {
        seq![]
    } else if ts.len() == 1 {
        token_source(ts[0])
    } else {
        render_tokens(ts.drop_last()) + seq![' '] + token_source(ts.last())
    }
}

/// No literal among the tokens is negative (a negative one is written with
/// a minus sign, which lexes as a token of its own).
pub open spec fn literals_nonnegative(ts: Seq<Token>) -> bool {
    forall|i: int| 0 <= i < ts.len() ==> (#[trigger] ts[i] matches Token::Int(n) ==> n >= 0)
}

proof fn lemma_lex_digit_run(ds: Seq<char>, i: int, acc: nat)
    requires
        all_digits(ds),
        0 <= i <= ds.len(),
        acc == digits_value(ds.take(i)),
    ensures
        lex_number(ds, i, acc) == if digits_value(ds) > i64::MAX {
            None
        } else {
            Some(Ok::<Seq<Token>, Seq<char>>(seq![Token::Int(digits_value(ds) as i64)]))
        },
    decreases ds.len() - i,
{
    if i < ds.len() {
        assert(ds.take(i + 1).drop_last() =~= ds.take(i));
        assert(ds.take(i + 1).last() == ds[i]);
        assert(is_digit(ds[i]));
        lemma_lex_digit_run(ds, i + 1, acc * 10 + digit_value(ds[i]));
    } else {
        assert(ds.take(i) =~= ds);
        assert(lex_from(ds, i) == Some(Ok::<Seq<Token>, Seq<char>>(seq![])));
        let t = Token::Int(acc as i64);
        assert(seq![t] + Seq::<Token>::empty() =~= seq![t]);
    }
}

proof fn lemma_lex_token_source(t: Token)
    requires
        t matches Token::Int(n) ==> n >= 0,
    ensures
        lex(token_source(t)) == Some(Ok::<Seq<Token>, Seq<char>>(seq![t])),
{
    let src = token_source(t);
    match t {
        Token::Int(n) => {
            lemma_nat_text_digits(n as nat);
            assert(src == nat_text(n as nat));
            assert(src.take(1).drop_last() =~= Seq::<char>::empty());
            assert(digits_value(Seq::<char>::empty()) == 0);
            assert(src.take(1).last() == src[0]);
            lemma_lex_digit_run(src, 1, digit_value(src[0]));
        },
        _ => {
            assert(lex_from(src, 1) == Some(Ok::<Seq<Token>, Seq<char>>(seq![])));
            assert(seq![t] + Seq::<Token>::empty() =~= seq![t]);
        },
    }
}

/// Lexing the tokens written out with single spaces between them gives the
/// tokens back, when no literal is negative.
pub proof fn lemma_lex_rendered_tokens(ts: Seq<Token>)
    requires
        literals_nonnegative(ts),
    ensures
        lex(render_tokens(ts)) == Some(Ok::<Seq<Token>, Seq<char>>(ts)),
    decreases ts.len(),
{
    if ts.len() == 0 {
        assert(ts =~= Seq::<Token>::empty());
    } else if ts.len() == 1 {
        assert(ts[0] matches Token::Int(n) ==> n >= 0);
        lemma_lex_token_source(ts[0]);
        assert(seq![ts[0]] =~= ts);
    } else {
        let init = ts.drop_last();
        assert(literals_nonnegative(init)) by {
            assert forall|i: int| 0 <= i < init.len() implies (#[trigger] init[i] matches Token::Int(n) ==> n >= 0) by {
                assert(init[i] == ts[i]);
            }
        }
        assert(ts.last() == ts[ts.len() - 1]);
        lemma_lex_rendered_tokens(init);
        lemma_lex_token_source(ts.last());
        lemma_lex_space_join(render_tokens(init), token_source(ts.last()));
        assert(init + seq![ts.last()] =~= ts);
    }
}


// ---------------------------------------------------------------------------
// Parsing
// ---------------------------------------------------------------------------

/// The tokens of `e` with every operation in parentheses.
pub open spec fn parenthesized(e: Expr) -> Seq<Token>
    decreases e,
{
    match e {
        Expr::Lit(n) => seq![Token::Int(n)],
        Expr::Add(l, r) => seq![Token::LParen] + parenthesized(*l) + seq![Token::Plus]
            + parenthesized(*r) + seq![Token::RParen],
        Expr::Sub(l, r) => seq![Token::LParen] + parenthesized(*l) + seq![Token::Minus]
            + parenthesized(*r) + seq![Token::RParen],
        Expr::Mul(l, r) => seq![Token::LParen] + parenthesized(*l) + seq![Token::Star]
            + parenthesized(*r) + seq![Token::RParen],
        Expr::Div(l, r) => seq![Token::LParen] + parenthesized(*l) + seq![Token::Slash]
            + parenthesized(*r) + seq![Token::RParen],
        Expr::Neg(x) => seq![Token::LParen, Token::Minus] + parenthesized(*x) + seq![
            Token::RParen,
        ],
    }
}

/// `toks` holds `part` from position `p` on.
spec fn holds_at(toks: Seq<Token>, p: int, part: Seq<Token>) -> bool {
    &&& 0 <= p
    &&& p + part.len() <= toks.len()
    &&& forall|k: int| 0 <= k < part.len() ==> toks[p + k] == #[trigger] part[k]
}

proof fn lemma_holds_split(toks: Seq<Token>, p: int, a: Seq<Token>, b: Seq<Token>)
    requires
        holds_at(toks, p, a + b),
    ensures
        holds_at(toks, p, a),
        holds_at(toks, p + a.len(), b),
{
    assert forall|k: int| 0 <= k < a.len() implies toks[p + k] == #[trigger] a[k] by {
        assert((a + b)[k] == a[k]);
    }
    assert forall|k: int| 0 <= k < b.len() implies toks[p + a.len() + k] == #[trigger] b[k] by {
        assert((a + b)[a.len() + k] == b[k]);
    }
}

spec fn binary_of(op: Token, l: Expr, r: Expr) -> Expr {
    match op {
        Token::Plus => Expr::Add(Box::new(l), Box::new(r)),
        Token::Minus => Expr::Sub(Box::new(l), Box::new(r)),
        Token::Star => Expr::Mul(Box::new(l), Box::new(r)),
        _ => Expr::Div(Box::new(l), Box::new(r)),
    }
}

spec fn parsed_as(e: Expr, n: nat) -> Result<(Expr, nat), (Seq<char>, nat)> {
    Ok((e, n))
}

proof fn lemma_factor_binary(toks: Seq<Token>, p: int, op: Token, l: Expr, ll: nat, r: Expr, rl: nat)
    requires
        0 <= p,
        p + ll + rl + 3 <= toks.len(),
        op == Token::Plus || op == Token::Minus || op == Token::Star || op == Token::Slash,
        toks[p] == Token::LParen,
        toks[p + 1 + ll] == op,
        toks[p + 2 + ll + rl] == Token::RParen,
        factor_at(toks, p + 1) == parsed_as(l, ll),
        factor_at(toks, p + 2 + ll) == parsed_as(r, rl),
    ensures
        factor_at(toks, p) == parsed_as(binary_of(op, l, r), ll + rl + 3),
{
    let e = binary_of(op, l, r);
    let q = p + 1 + ll;
    let end = p + 2 + ll + rl;
    let used = ll + 1 + rl;
    if op == Token::Star || op == Token::Slash {
        assert(term_tail(toks, end, e, used) == parsed_as(e, used));
        assert(term_tail(toks, q, l, ll) == parsed_as(e, used));
        assert(term_at(toks, p + 1) == parsed_as(e, used));
        assert(expr_tail(toks, end, e, used) == parsed_as(e, used));
    } else {
        assert(term_tail(toks, q, l, ll) == parsed_as(l, ll));
        assert(term_at(toks, p + 1) == parsed_as(l, ll));
        assert(term_tail(toks, end, r, rl) == parsed_as(r, rl));
        assert(term_at(toks, q + 1) == parsed_as(r, rl));
        assert(expr_tail(toks, end, e, used) == parsed_as(e, used));
        assert(expr_tail(toks, q, l, ll) == parsed_as(e, used));
    }
    assert(expr_at(toks, p + 1) == parsed_as(e, used));
}

proof fn lemma_factor_neg(toks: Seq<Token>, p: int, x: Expr, xl: nat)
    requires
        0 <= p,
        p + xl + 3 <= toks.len(),
        toks[p] == Token::LParen,
        toks[p + 1] == Token::Minus,
        toks[p + 2 + xl] == Token::RParen,
        factor_at(toks, p + 2) == parsed_as(x, xl),
    ensures
        factor_at(toks, p) == parsed_as(Expr::Neg(Box::new(x)), xl + 3),
{
    let e = Expr::Neg(Box::new(x));
    assert(factor_at(toks, p + 1) == parsed_as(e, xl + 1));
    assert(term_tail(toks, p + 2 + xl, e, xl + 1) == parsed_as(e, xl + 1));
    assert(term_at(toks, p + 1) == parsed_as(e, xl + 1));
    assert(expr_tail(toks, p + 2 + xl, e, xl + 1) == parsed_as(e, xl + 1));
    assert(expr_at(toks, p + 1) == parsed_as(e, xl + 1));
}

proof fn lemma_factor_parses(toks: Seq<Token>, p: int, e: Expr)
    requires
        holds_at(toks, p, parenthesized(e)),
    ensures
        factor_at(toks, p) == parsed_as(e, parenthesized(e).len()),
    decreases e,
{
    let t = parenthesized(e);
    assert(toks[p + 0] == t[0]);
    match e {
        Expr::Lit(n) => {},
        Expr::Neg(x) => {
            let tx = parenthesized(*x);
            let xl = tx.len();
            lemma_holds_split(toks, p, seq![Token::LParen, Token::Minus] + tx, seq![Token::RParen]);
            lemma_holds_split(toks, p, seq![Token::LParen, Token::Minus], tx);
            assert(seq![Token::LParen, Token::Minus][1] == Token::Minus);
            assert(seq![Token::RParen][0] == Token::RParen);
            assert(toks[p + 1] == Token::Minus);
            assert(toks[p + 2 + xl + 0] == Token::RParen);
            lemma_factor_parses(toks, p + 2, *x);
            lemma_factor_neg(toks, p, *x, xl);
        },
        Expr::Add(l, r) | Expr::Sub(l, r) | Expr::Mul(l, r) | Expr::Div(l, r) => {
            let op = match e {
                Expr::Add(..) => Token::Plus,
                Expr::Sub(..) => Token::Minus,
                Expr::Mul(..) => Token::Star,
                _ => Token::Slash,
            };
            assert(e == binary_of(op, *l, *r));
            let tl = parenthesized(*l);
            let tr = parenthesized(*r);
            let ll = tl.len();
            let rl = tr.len();
            assert(t == seq![Token::LParen] + tl + seq![op] + tr + seq![Token::RParen]);
            lemma_holds_split(toks, p, seq![Token::LParen] + tl + seq![op] + tr, seq![Token::RParen]);
            lemma_holds_split(toks, p, seq![Token::LParen] + tl + seq![op], tr);
            lemma_holds_split(toks, p, seq![Token::LParen] + tl, seq![op]);
            lemma_holds_split(toks, p, seq![Token::LParen], tl);
            assert(seq![op][0] == op);
            assert(seq![Token::RParen][0] == Token::RParen);
            assert(toks[p + 1 + ll + 0] == op);
            assert(toks[p + 2 + ll + rl + 0] == Token::RParen);
            lemma_factor_parses(toks, p + 1, *l);
            lemma_factor_parses(toks, p + 2 + ll, *r);
            lemma_factor_binary(toks, p, op, *l, ll, *r, rl);
        },
    }
}

/// Parsing the fully parenthesised tokens of an expression gives the
/// expression back.
pub proof fn lemma_parse_parenthesized(e: Expr)
    ensures
        parse_tokens(parenthesized(e)) == Ok::<Expr, Seq<char>>(e),
{
    let t = parenthesized(e);
    lemma_factor_parses(t, 0, e);
    let n = t.len();
    assert(term_tail(t, n as int, e, n) == parsed_as(e, n));
    assert(term_at(t, 0) == parsed_as(e, n));
    assert(expr_tail(t, n as int, e, n) == parsed_as(e, n));
    assert(expr_at(t, 0) == parsed_as(e, n));
}


// ---------------------------------------------------------------------------
// Parsing with precedence and associativity
// ---------------------------------------------------------------------------

/// The tokens of `e` written with as few parentheses as the grammar needs:
/// `*` and `/` bind tighter than `+` and `-`, and operators of one level
/// group to the left, so only a right operand of the same or a looser level
/// is put in parentheses.
pub open spec fn expr_tokens(e: Expr) -> Seq<Token>
    decreases e, 2int,
{
    match e {
        Expr::Add(l, r) => expr_tokens(*l) + seq![Token::Plus] + term_tokens(*r),
        Expr::Sub(l, r) => expr_tokens(*l) + seq![Token::Minus] + term_tokens(*r),
        _ => term_tokens(e),
    }
}

/// The tokens of `e` as a `term`.
pub open spec fn term_tokens(e: Expr) -> Seq<Token>
    decreases e, 1int,
{
    match e {
        Expr::Mul(l, r) => term_tokens(*l) + seq![Token::Star] + factor_tokens(*r),
        Expr::Div(l, r) => term_tokens(*l) + seq![Token::Slash] + factor_tokens(*r),
        _ => factor_tokens(e),
    }
}

/// The tokens of `e` as a `factor`: a literal, a negation, or an operation
/// in parentheses.
pub open spec fn factor_tokens(e: Expr) -> Seq<Token>
    decreases e, 0int,
{
    match e {
        Expr::Lit(n) => seq![Token::Int(n)],
        Expr::Neg(x) => seq![Token::Minus] + factor_tokens(*x),
        Expr::Add(l, r) => seq![Token::LParen] + expr_tokens(*l) + seq![Token::Plus] + term_tokens(
            *r,
        ) + seq![Token::RParen],
        Expr::Sub(l, r) => seq![Token::LParen] + expr_tokens(*l) + seq![Token::Minus]
            + term_tokens(*r) + seq![Token::RParen],
        Expr::Mul(l, r) => seq![Token::LParen] + term_tokens(*l) + seq![Token::Star]
            + factor_tokens(*r) + seq![Token::RParen],
        Expr::Div(l, r) => seq![Token::LParen] + term_tokens(*l) + seq![Token::Slash]
            + factor_tokens(*r) + seq![Token::RParen],
    }
}

spec fn is_sum(e: Expr) -> bool {
    e is Add || e is Sub
}

spec fn is_product(e: Expr) -> bool {
    e is Mul || e is Div
}

spec fn rank_factor(e: Expr) -> int {
    if is_sum(e) {
        1
    } else if is_product(e) {
        2
    } else {
        0
    }
}

spec fn rank_expr(e: Expr) -> int {
    if is_sum(e) {
        0
    } else if is_product(e) {
        1
    } else {
        2
    }
}

spec fn rank_term(e: Expr) -> int {
    if is_sum(e) {
        2
    } else if is_product(e) {
        0
    } else {
        1
    }
}

spec fn not_mul_op_at(toks: Seq<Token>, q: int) -> bool {
    q >= toks.len() || (toks[q] != Token::Star && toks[q] != Token::Slash)
}

proof fn lemma_parse_factor_tokens(toks: Seq<Token>, p: int, e: Expr)
    requires
        holds_at(toks, p, factor_tokens(e)),
    ensures
        factor_at(toks, p) == parsed_as(e, factor_tokens(e).len()),
    decreases e, rank_factor(e),
{
    let t = factor_tokens(e);
    assert(toks[p + 0] == t[0]);
    match e {
        Expr::Lit(_) => {},
        Expr::Neg(x) => {
            lemma_holds_split(toks, p, seq![Token::Minus], factor_tokens(*x));
            lemma_parse_factor_tokens(toks, p + 1, *x);
        },
        _ => {
            let inner = expr_tokens(e);
            let k = inner.len();
            match e {
                Expr::Add(l, r) => {
                    assert(inner == expr_tokens(*l) + seq![Token::Plus] + term_tokens(*r));
                },
                Expr::Sub(l, r) => {
                    assert(inner == expr_tokens(*l) + seq![Token::Minus] + term_tokens(*r));
                },
                Expr::Mul(l, r) => {
                    assert(inner == term_tokens(e));
                    assert(inner == term_tokens(*l) + seq![Token::Star] + factor_tokens(*r));
                },
                Expr::Div(l, r) => {
                    assert(inner == term_tokens(e));
                    assert(inner == term_tokens(*l) + seq![Token::Slash] + factor_tokens(*r));
                },
                _ => {},
            }
            assert(t =~= seq![Token::LParen] + inner + seq![Token::RParen]);
            lemma_holds_split(toks, p, seq![Token::LParen] + inner, seq![Token::RParen]);
            lemma_holds_split(toks, p, seq![Token::LParen], inner);
            assert(seq![Token::RParen][0] == Token::RParen);
            assert(toks[p + 1 + k + 0] == Token::RParen);
            lemma_parse_expr_tokens(toks, p + 1, e);
            assert(expr_tail(toks, p + 1 + k, e, k) == parsed_as(e, k));
            assert(expr_at(toks, p + 1) == parsed_as(e, k));
        },
    }
}

proof fn lemma_parse_term_tokens(toks: Seq<Token>, p: int, e: Expr)
    requires
        holds_at(toks, p, term_tokens(e)),
    ensures
        term_at(toks, p) == term_tail(toks, p + term_tokens(e).len(), e, term_tokens(e).len()),
    decreases e, rank_term(e),
{
    match e {
        Expr::Mul(l, r) | Expr::Div(l, r) => {
            let op = if e is Mul {
                Token::Star
            } else {
                Token::Slash
            };
            let tl = term_tokens(*l);
            let fr = factor_tokens(*r);
            assert(term_tokens(e) == tl + seq![op] + fr);
            lemma_holds_split(toks, p, tl + seq![op], fr);
            lemma_holds_split(toks, p, tl, seq![op]);
            assert(seq![op][0] == op);
            assert(toks[p + tl.len() + 0] == op);
            lemma_parse_term_tokens(toks, p, *l);
            lemma_parse_factor_tokens(toks, p + tl.len() + 1, *r);
            if e is Mul {
                assert(e == Expr::Mul(Box::new(*l), Box::new(*r)));
            } else {
                assert(e == Expr::Div(Box::new(*l), Box::new(*r)));
            }
        },
        _ => {
            assert(term_tokens(e) == factor_tokens(e));
            lemma_parse_factor_tokens(toks, p, e);
        },
    }
}

proof fn lemma_parse_expr_tokens(toks: Seq<Token>, p: int, e: Expr)
    requires
        holds_at(toks, p, expr_tokens(e)),
        not_mul_op_at(toks, p + expr_tokens(e).len()),
    ensures
        expr_at(toks, p) == expr_tail(toks, p + expr_tokens(e).len(), e, expr_tokens(e).len()),
    decreases e, rank_expr(e),
{
    match e {
        Expr::Add(l, r) | Expr::Sub(l, r) => {
            let op = if e is Add {
                Token::Plus
            } else {
                Token::Minus
            };
            let el = expr_tokens(*l);
            let tr = term_tokens(*r);
            let end = p + el.len() + 1 + tr.len();
            assert(expr_tokens(e) == el + seq![op] + tr);
            lemma_holds_split(toks, p, el + seq![op], tr);
            lemma_holds_split(toks, p, el, seq![op]);
            assert(seq![op][0] == op);
            assert(toks[p + el.len() + 0] == op);
            lemma_parse_expr_tokens(toks, p, *l);
            lemma_parse_term_tokens(toks, p + el.len() + 1, *r);
            assert(term_tail(toks, end, *r, tr.len()) == parsed_as(*r, tr.len()));
            if e is Add {
                assert(e == Expr::Add(Box::new(*l), Box::new(*r)));
            } else {
                assert(e == Expr::Sub(Box::new(*l), Box::new(*r)));
            }
        },
        _ => {
            let n = expr_tokens(e).len();
            assert(expr_tokens(e) == term_tokens(e));
            lemma_parse_term_tokens(toks, p, e);
            assert(term_tail(toks, p + n, e, n) == parsed_as(e, n));
        },
    }
}

/// Parsing the tokens of an expression written with the fewest parentheses
/// gives the expression back: `*` and `/` bind tighter than `+` and `-`,
/// and a chain of operators of one level groups to the left (so
/// `a * b / c` is `(a * b) / c` and `a - b + c` is `(a - b) + c`).
pub proof fn lemma_parse_minimal_tokens(e: Expr)
    ensures
        parse_tokens(expr_tokens(e)) == Ok::<Expr, Seq<char>>(e),
{
    let t = expr_tokens(e);
    let n = t.len();
    assert(holds_at(t, 0, t));
    lemma_parse_expr_tokens(t, 0, e);
    assert(expr_tail(t, n as int, e, n) == parsed_as(e, n));
}

} // verus!
