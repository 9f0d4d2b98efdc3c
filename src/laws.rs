//! Properties of the scanner and of evaluation, proved over the spec.

use vstd::prelude::*;
use crate::token::TokenView;
use crate::error::EvalErrorView;
use crate::tokenizer::{
    CharClass,
    class_of,
    classes_of,
    whitespace,
    alphabetic,
    numeric,
    scan,
    continues_name,
    is_digit,
    skip_whitespace,
    name_end,
    digits_end,
    digits_value,
    token_of,
    token_end,
    lemma_scan_bounds,
};
use crate::semantics::{
    Bindings,
    Outcome,
    remaining,
    lookahead,
    width,
    lemma_token_consumes,
    expression,
    expression_prime,
    term,
    term_prime,
    factor,
    assignment,
    program,
    evaluate,
    fits_i32,
};
use crate::tree::{
    Expr,
    eval,
    widen,
    parse_expression,
    parse_expression_prime,
    parse_term,
    parse_term_prime,
    parse_factor,
    parse_assignment,
    parse_program,
    run_statements,
    fits_throughout,
    statements_fit,
};

verus! {

/// Once the scanner has reported the end of the input, the next step reports
/// it again and consumes nothing.
pub proof fn lemma_end_of_input_is_stable(s: Seq<char>, k: Seq<CharClass>, p: nat)
    requires
        scan(s, k, p).0 == TokenView::EndOfFile,
    ensures
        scan(s, k, p + scan(s, k, p).1) == (TokenView::EndOfFile, 0nat),
{
    reveal(scan);
    if p <= s.len() {
        lemma_scan_bounds(s, k, p);
    }
}

/// The tokens scanned from position `p` up to the end of the input.
pub open spec fn tokens_from(s: Seq<char>, k: Seq<CharClass>, p: nat) -> Seq<TokenView>
    decreases remaining(s, p),
{
    proof {
        lemma_token_consumes(s, k, p);
    }
    if scan(s, k, p).0 == TokenView::EndOfFile {
        Seq::empty()
    } else {
        seq![scan(s, k, p).0] + tokens_from(s, k, p + scan(s, k, p).1)
    }
}

pub open spec fn digit_char(n: nat) -> char {
    seq!['0', '1', '2', '3', '4', '5', '6', '7', '8', '9'][n as int]
}

/// The decimal digits of `n`, without leading zeros.
pub open spec fn decimal(n: nat) -> Seq<char>
    decreases n,
{
    if n < 10 {
        seq![digit_char(n)]
    } else {
        decimal(n / 10) + seq![digit_char(n % 10)]
    }
}

/// How a token is written: the payload of a name or a number, the symbol of
/// an operator, nothing for the two sentinels.
pub open spec fn token_text(t: TokenView) -> Seq<char> {
    match t {
        TokenView::Id(name) => name,
        TokenView::Literal(v) => if v < 0 {
            seq!['-'] + decimal((-v) as nat)
        } else {
            decimal(v as nat)
        },
        TokenView::Assign => seq!['='],
        TokenView::Plus => seq!['+'],
        TokenView::Minus => seq!['-'],
        TokenView::Multiply => seq!['*'],
        TokenView::Semicolon => seq![';'],
        TokenView::LeftParenthesis => seq!['('],
        TokenView::RightParenthesis => seq![')'],
        TokenView::Illegal => Seq::empty(),
        TokenView::EndOfFile => Seq::empty(),
    }
}

/// The texts of a sequence of tokens, joined.
pub open spec fn spelling(ts: Seq<TokenView>) -> Seq<char>
    decreases ts.len(),
{
    if ts.len() == 0 {
        Seq::empty()
    } else {
        token_text(ts[0]) + spelling(ts.drop_first())
    }
}

/// The characters of `s` from position `p` on that are not classed as
/// whitespace, in order.
pub open spec fn visible_from(s: Seq<char>, k: Seq<CharClass>, p: nat) -> Seq<char>
    decreases s.len() - p,
{
    if p >= s.len() {
        Seq::empty()
    } else if k[p as int].whitespace {
        visible_from(s, k, p + 1)
    } else {
        seq![s[p as int]] + visible_from(s, k, p + 1)
    }
}

proof fn lemma_skip_invisible(s: Seq<char>, k: Seq<CharClass>, p: nat)
    ensures
        visible_from(s, k, p) == visible_from(s, k, skip_whitespace(s, k, p)),
    decreases s.len() - p,
{
    if p < s.len() && k[p as int].whitespace {
        lemma_skip_invisible(s, k, p + 1);
    }
}

proof fn lemma_visible_run(s: Seq<char>, k: Seq<CharClass>, q: nat, e: nat)
    requires
        q <= e <= s.len(),
        forall|i: int| q <= i < e ==> !k[i].whitespace,
    ensures
        visible_from(s, k, q) == s.subrange(q as int, e as int) + visible_from(s, k, e),
    decreases e - q,
{
    if q < e {
        lemma_visible_run(s, k, q + 1, e);
        assert(s.subrange(q as int, e as int) =~= seq![s[q as int]] + s.subrange((q + 1) as int, e as int));
    } else {
        assert(s.subrange(q as int, e as int) =~= Seq::<char>::empty());
    }
}

proof fn lemma_name_run(s: Seq<char>, k: Seq<CharClass>, p: nat)
    ensures
        forall|i: int| p <= i < name_end(s, k, p) ==> continues_name(s[i], #[trigger] k[i]),
        p <= name_end(s, k, p),
        p <= s.len() ==> name_end(s, k, p) <= s.len(),
    decreases s.len() - p,
{
    if p < s.len() && continues_name(s[p as int], k[p as int]) {
        lemma_name_run(s, k, p + 1);
    }
}

proof fn lemma_digit_run(s: Seq<char>, p: nat)
    ensures
        forall|i: int| p <= i < digits_end(s, p) ==> is_digit(#[trigger] s[i]),
        p <= digits_end(s, p),
        p <= s.len() ==> digits_end(s, p) <= s.len(),
    decreases s.len() - p,
{
    if p < s.len() && is_digit(s[p as int]) {
        lemma_digit_run(s, p + 1);
    }
}

proof fn lemma_digits_value_positive(d: Seq<char>)
    requires
        d.len() >= 1,
        forall|i: int| 0 <= i < d.len() ==> is_digit(#[trigger] d[i]),
        d[0] != '0',
    ensures
        digits_value(d) >= 1,
    decreases d.len(),
{
    let front = d.drop_last();
    let x = d.last() as int - '0' as int;
    if d.len() > 1 {
        assert(front[0] == d[0]);
        lemma_digits_value_positive(front);
        let a = digits_value(front);
        assert(a * 10 + x >= 1) by (nonlinear_arith)
            requires
                a >= 1,
                x >= 0,
        ;
    } else {
        assert(front =~= Seq::<char>::empty());
        assert(digits_value(front) == 0);
    }
}

proof fn lemma_decimal_of_digits(d: Seq<char>)
    requires
        d.len() >= 1,
        forall|i: int| 0 <= i < d.len() ==> is_digit(#[trigger] d[i]),
        d.len() == 1 || d[0] != '0',
    ensures
        digits_value(d) >= 0,
        decimal(digits_value(d) as nat) == d,
    decreases d.len(),
{
    let front = d.drop_last();
    let last = d.last();
    let x = last as int - '0' as int;
    assert(0 <= x < 10);
    assert(digit_char(x as nat) == last);
    if d.len() == 1 {
        assert(front =~= Seq::<char>::empty());
        assert(digits_value(front) == 0);
        assert(decimal(x as nat) =~= d);
    } else {
        lemma_decimal_of_digits(front);
        lemma_digits_value_positive(front);
        let a = digits_value(front);
        let v = a * 10 + x;
        assert(v / 10 == a && v % 10 == x) by (nonlinear_arith)
            requires
                v == a * 10 + x,
                0 <= x < 10,
        ;
        assert(decimal(v as nat) == decimal(a as nat) + seq![digit_char(x as nat)]);
        assert(d =~= front + seq![last]);
    }
}

/// The text of the token found at `q` is the text it was scanned from.
proof fn lemma_token_text(s: Seq<char>, k: Seq<CharClass>, q: nat)
    requires
        q < s.len(),
        token_of(s, k, q) != TokenView::Illegal,
    ensures
        q < token_end(s, k, q) <= s.len(),
        token_text(token_of(s, k, q)) == s.subrange(q as int, token_end(s, k, q) as int),
        forall|i: int| q < i < token_end(s, k, q) ==> continues_name(s[i], #[trigger] k[i]) || is_digit(s[i]),
{
    lemma_name_run(s, k, q + 1);
    lemma_digit_run(s, q + 1);
    let c = s[q as int];
    let e = token_end(s, k, q);
    if e == q + 1 {
        assert(s.subrange(q as int, e as int) =~= seq![c]);
    }
    if !crate::tokenizer::is_operator(c) && !crate::tokenizer::starts_name(c, k[q as int]) && is_digit(c) {
        let d = s.subrange(q as int, e as int);
        assert forall|i: int| 0 <= i < d.len() implies is_digit(#[trigger] d[i]) by {
            assert(d[i] == s[q + i]);
        }
        lemma_decimal_of_digits(d);
    }
}

proof fn lemma_round_trip_from(s: Seq<char>, k: Seq<CharClass>, p: nat)
    requires
        p <= s.len(),
        !tokens_from(s, k, p).contains(TokenView::Illegal),
        forall|i: int|
            0 <= i < s.len() && #[trigger] k[i].whitespace ==> !continues_name(s[i], k[i]) && !is_digit(
                s[i],
            ),
    ensures
        spelling(tokens_from(s, k, p)) == visible_from(s, k, p),
    decreases remaining(s, p),
{
    reveal(scan);
    let q = skip_whitespace(s, k, p);
    lemma_scan_bounds(s, k, p);
    lemma_skip_invisible(s, k, p);
    lemma_token_consumes(s, k, p);
    let ts = tokens_from(s, k, p);
    if q < s.len() {
        let t = token_of(s, k, q);
        let e = token_end(s, k, q);
        assert(ts[0] == t);
        lemma_token_text(s, k, q);
        assert(ts.drop_first() =~= tokens_from(s, k, e));
        assert forall|t2: TokenView| tokens_from(s, k, e).contains(t2) implies t2 != TokenView::Illegal by {
            let j = choose|j: int| 0 <= j < tokens_from(s, k, e).len() && tokens_from(s, k, e)[j] == t2;
            assert(ts[j + 1] == t2);
        }
        lemma_round_trip_from(s, k, e);
        crate::tokenizer::lemma_skip_stops(s, k, p);
        assert forall|i: int| q <= i < e implies !k[i].whitespace by {
            if i > q {
                assert(continues_name(s[i], k[i]) || is_digit(s[i]));
            }
        }
        lemma_visible_run(s, k, q, e);
    } else {
        assert(visible_from(s, k, q) == Seq::<char>::empty());
    }
}

/// Scanning a text in which every token is valid, and joining the texts of the
/// tokens, gives back the text without its whitespace. The classes must not
/// mark a character both as whitespace and as part of a name or a number;
/// std's Unicode classes never do.
pub proof fn lemma_round_trip(s: Seq<char>, k: Seq<CharClass>)
    requires
        !tokens_from(s, k, 0).contains(TokenView::Illegal),
        forall|i: int|
            0 <= i < s.len() && #[trigger] k[i].whitespace ==> !continues_name(s[i], k[i]) && !is_digit(
                s[i],
            ),
    ensures
        spelling(tokens_from(s, k, 0)) == visible_from(s, k, 0),
{
    lemma_round_trip_from(s, k, 0);
}

/// The round trip for std's classes: it holds of every text whose tokens are
/// all valid, provided no character of it is both Unicode whitespace and
/// alphabetic or numeric (Unicode has no such character, but std does not
/// document that).
pub proof fn lemma_round_trip_std(s: Seq<char>)
    requires
        !tokens_from(s, classes_of(s), 0).contains(TokenView::Illegal),
        forall|i: int|
            0 <= i < s.len() && whitespace(#[trigger] s[i]) ==> !alphabetic(s[i]) && !numeric(s[i]),
    ensures
        spelling(tokens_from(s, classes_of(s), 0)) == visible_from(s, classes_of(s), 0),
{
    let k = classes_of(s);
    assert forall|i: int|
        0 <= i < s.len() && #[trigger] k[i].whitespace implies !continues_name(s[i], k[i]) && !is_digit(
            s[i],
        ) by {
        assert(k[i] == class_of(s[i]));
    }
    lemma_round_trip(s, k);
}

/// The tree parsed for a rule whose evaluation succeeded took the same
/// characters and has the same value.
pub open spec fn tree_agrees(t: Option<(Expr, nat)>, o: Outcome, env: Bindings) -> bool {
    match (t, o) {
        (Some((e, d1)), Ok((v, d))) => d1 == d && eval(e, widen(env)) == Some(v as int),
        _ => false,
    }
}

proof fn lemma_expression_tree(s: Seq<char>, k: Seq<CharClass>, env: Bindings, p: nat)
    requires
        expression(s, k, env, p) is Ok,
    ensures
        tree_agrees(parse_expression(s, k, p), expression(s, k, env, p), env),
    decreases remaining(s, p), 2nat,
{
    let (v, d) = term(s, k, env, p)->Ok_0;
    lemma_term_tree(s, k, env, p);
    let (e, _) = parse_term(s, k, p)->0;
    lemma_expression_prime_tree(s, k, env, p + d, v, e);
}

proof fn lemma_expression_prime_tree(s: Seq<char>, k: Seq<CharClass>, env: Bindings, p: nat, acc: i32, acc_tree: Expr)
    requires
        expression_prime(s, k, env, p, acc) is Ok,
        eval(acc_tree, widen(env)) == Some(acc as int),
    ensures
        tree_agrees(parse_expression_prime(s, k, p, acc_tree), expression_prime(s, k, env, p, acc), env),
    decreases remaining(s, p), 1nat,
{
    let t = lookahead(s, k, p);
    let tw = width(s, k, p);
    lemma_token_consumes(s, k, p);
    if t is Plus || t is Minus {
        let (v, d) = term(s, k, env, p + tw)->Ok_0;
        lemma_term_tree(s, k, env, p + tw);
        let (e, _) = parse_term(s, k, p + tw)->0;
        let r = if t is Plus {
            acc + v
        } else {
            acc - v
        };
        let n = if t is Plus {
            Expr::Add(Box::new(acc_tree), Box::new(e))
        } else {
            Expr::Sub(Box::new(acc_tree), Box::new(e))
        };
        assert(eval(n, widen(env)) == Some(r));
        lemma_expression_prime_tree(s, k, env, p + tw + d, r as i32, n);
    }
}

proof fn lemma_term_tree(s: Seq<char>, k: Seq<CharClass>, env: Bindings, p: nat)
    requires
        term(s, k, env, p) is Ok,
    ensures
        tree_agrees(parse_term(s, k, p), term(s, k, env, p), env),
    decreases remaining(s, p), 1nat,
{
    let (v, d) = factor(s, k, env, p)->Ok_0;
    lemma_factor_tree(s, k, env, p);
    let (e, _) = parse_factor(s, k, p)->0;
    lemma_term_prime_tree(s, k, env, p + d, v, e);
}

proof fn lemma_term_prime_tree(s: Seq<char>, k: Seq<CharClass>, env: Bindings, p: nat, acc: i32, acc_tree: Expr)
    requires
        term_prime(s, k, env, p, acc) is Ok,
        eval(acc_tree, widen(env)) == Some(acc as int),
    ensures
        tree_agrees(parse_term_prime(s, k, p, acc_tree), term_prime(s, k, env, p, acc), env),
    decreases remaining(s, p), 0nat,
{
    let tw = width(s, k, p);
    lemma_token_consumes(s, k, p);
    if lookahead(s, k, p) is Multiply {
        let (v, d) = factor(s, k, env, p + tw)->Ok_0;
        lemma_factor_tree(s, k, env, p + tw);
        let (e, _) = parse_factor(s, k, p + tw)->0;
        let n = Expr::Mul(Box::new(acc_tree), Box::new(e));
        assert(eval(n, widen(env)) == Some(acc * v));
        lemma_term_prime_tree(s, k, env, p + tw + d, (acc * v) as i32, n);
    }
}

proof fn lemma_factor_tree(s: Seq<char>, k: Seq<CharClass>, env: Bindings, p: nat)
    requires
        factor(s, k, env, p) is Ok,
    ensures
        tree_agrees(parse_factor(s, k, p), factor(s, k, env, p), env),
    decreases remaining(s, p), 0nat,
{
    let tw = width(s, k, p);
    lemma_token_consumes(s, k, p);
    match lookahead(s, k, p) {
        TokenView::LeftParenthesis => {
            lemma_expression_tree(s, k, env, p + tw);
        },
        TokenView::Plus => {
            lemma_factor_tree(s, k, env, p + tw);
        },
        TokenView::Minus => {
            lemma_factor_tree(s, k, env, p + tw);
            let (e, _) = parse_factor(s, k, p + tw)->0;
            let (v, _) = factor(s, k, env, p + tw)->Ok_0;
            assert(eval(Expr::Neg(Box::new(e)), widen(env)) == Some(-v));
        },
        _ => {},
    }
}

proof fn lemma_widen_insert(env: Bindings, name: Seq<char>, v: i32)
    ensures
        widen(env.insert(name, v)) == widen(env).insert(name, v as int),
{
    assert(widen(env.insert(name, v)) =~= widen(env).insert(name, v as int));
}

proof fn lemma_assignment_tree(s: Seq<char>, k: Seq<CharClass>, env: Bindings, p: nat)
    requires
        assignment(s, k, env, p) is Ok,
    ensures
        ({
            let (next, d) = assignment(s, k, env, p)->Ok_0;
            match parse_assignment(s, k, p) {
                Some(((name, e), d1)) => d1 == d && eval(e, widen(env)) is Some && widen(next)
                    == widen(env).insert(name, eval(e, widen(env))->0),
                None => false,
            }
        }),
{
    reveal(assignment);
    let tw = width(s, k, p);
    let q = p + tw;
    let name = lookahead(s, k, p)->Id_0;
    lemma_expression_tree(s, k, env, q + width(s, k, q));
    let (v, _) = expression(s, k, env, q + width(s, k, q))->Ok_0;
    lemma_widen_insert(env, name, v);
}

proof fn lemma_program_tree(s: Seq<char>, k: Seq<CharClass>, env: Bindings, p: nat)
    requires
        program(s, k, env, p) is Ok,
    ensures
        parse_program(s, k, p) is Some,
        run_statements(parse_program(s, k, p)->0, widen(env)) == Some(widen(program(s, k, env, p)->Ok_0)),
    decreases remaining(s, p),
{
    crate::semantics::lemma_assignment_consumes(s, k, env, p);
    let (next, d) = assignment(s, k, env, p)->Ok_0;
    lemma_assignment_tree(s, k, env, p);
    let (st, _) = parse_assignment(s, k, p)->0;
    let w = widen(env).insert(st.0, eval(st.1, widen(env))->0);
    if lookahead(s, k, p + d) == TokenView::EndOfFile {
        let stmts = seq![st];
        assert(stmts.drop_first() =~= Seq::<(Seq<char>, Expr)>::empty());
        assert(run_statements(stmts.drop_first(), w) == Some(w));
    } else {
        lemma_token_consumes(s, k, p + d);
        lemma_program_tree(s, k, next, p + d);
        let rest = parse_program(s, k, p + d)->0;
        let stmts = seq![st] + rest;
        assert(stmts.drop_first() =~= rest);
        assert(stmts[0] == st);
    }
}

/// Evaluating while parsing agrees with the mathematical meaning of the
/// program: whenever a run succeeds, the text parses into assignment
/// statements whose expression trees group `*` tighter than `+` and `-` and
/// each operator from the left, and executing those statements in order over
/// the integers, each overriding any earlier binding of its name, yields
/// exactly the run's bindings.
pub proof fn lemma_evaluation_is_mathematical(s: Seq<char>, k: Seq<CharClass>)
    requires
        evaluate(s, k) is Ok,
    ensures
        parse_program(s, k, 0) is Some,
        run_statements(parse_program(s, k, 0)->0, Map::empty()) == Some(widen(evaluate(s, k)->Ok_0)),
{
    lemma_program_tree(s, k, Map::empty(), 0);
    assert(widen(Map::<Seq<char>, i32>::empty()) =~= Map::<Seq<char>, int>::empty());
}

/// An outcome that is the value `v` over `d` characters, or an overflow.
pub open spec fn value_or_overflow(o: Outcome, v: int, d: nat) -> bool {
    o == Outcome::Err(EvalErrorView::Overflow) || (fits_i32(v) && o == Outcome::Ok((v as i32, d)))
}

/// Where a rule parses to a tree that has a value, its evaluation gives that
/// value over the same characters, or overflows; and it does not overflow
/// where every value in the tree fits in `i32`.
pub open spec fn tree_complete(t: Option<(Expr, nat)>, o: Outcome, env: Bindings) -> bool {
    match t {
        Some((e, d)) => match eval(e, widen(env)) {
            Some(v) => value_or_overflow(o, v, d) && (fits_throughout(e, widen(env)) ==> o
                == Outcome::Ok((v as i32, d))),
            None => true,
        },
        None => true,
    }
}

/// A tree that has a value is all defined on the left: so is its seed `acc`.
proof fn lemma_sum_seed_defined(s: Seq<char>, k: Seq<CharClass>, p: nat, acc: Expr, w: Map<Seq<char>, int>)
    ensures
        match parse_expression_prime(s, k, p, acc) {
            Some((e, _)) => (eval(e, w) is Some ==> eval(acc, w) is Some) && (fits_throughout(e, w)
                ==> fits_throughout(acc, w)),
            None => true,
        },
    decreases remaining(s, p),
{
    let t = lookahead(s, k, p);
    let tw = width(s, k, p);
    lemma_token_consumes(s, k, p);
    if t is Plus || t is Minus {
        if let Some((e, d)) = parse_term(s, k, p + tw) {
            let n = if t is Plus {
                Expr::Add(Box::new(acc), Box::new(e))
            } else {
                Expr::Sub(Box::new(acc), Box::new(e))
            };
            lemma_sum_seed_defined(s, k, p + tw + d, n, w);
        }
    }
}

proof fn lemma_product_seed_defined(s: Seq<char>, k: Seq<CharClass>, p: nat, acc: Expr, w: Map<Seq<char>, int>)
    ensures
        match parse_term_prime(s, k, p, acc) {
            Some((e, _)) => (eval(e, w) is Some ==> eval(acc, w) is Some) && (fits_throughout(e, w)
                ==> fits_throughout(acc, w)),
            None => true,
        },
    decreases remaining(s, p),
{
    let tw = width(s, k, p);
    lemma_token_consumes(s, k, p);
    if lookahead(s, k, p) is Multiply {
        if let Some((e, d)) = parse_factor(s, k, p + tw) {
            lemma_product_seed_defined(s, k, p + tw + d, Expr::Mul(Box::new(acc), Box::new(e)), w);
        }
    }
}

proof fn lemma_expression_complete(s: Seq<char>, k: Seq<CharClass>, env: Bindings, p: nat)
    ensures
        tree_complete(parse_expression(s, k, p), expression(s, k, env, p), env),
    decreases remaining(s, p), 2nat,
{
    if let Some((e, _)) = parse_expression(s, k, p) {
        if eval(e, widen(env)) is Some {
            let (et, dt) = parse_term(s, k, p)->0;
            lemma_term_complete(s, k, env, p);
            lemma_sum_seed_defined(s, k, p + dt, et, widen(env));
            if let Ok((vt, _)) = term(s, k, env, p) {
                lemma_expression_prime_complete(s, k, env, p + dt, vt, et);
            }
        }
    }
}

proof fn lemma_expression_prime_complete(s: Seq<char>, k: Seq<CharClass>, env: Bindings, p: nat, acc: i32, acc_tree: Expr)
    requires
        eval(acc_tree, widen(env)) == Some(acc as int),
    ensures
        tree_complete(parse_expression_prime(s, k, p, acc_tree), expression_prime(s, k, env, p, acc), env),
    decreases remaining(s, p), 1nat,
{
    let t = lookahead(s, k, p);
    let tw = width(s, k, p);
    lemma_token_consumes(s, k, p);
    if (t is Plus || t is Minus) && parse_expression_prime(s, k, p, acc_tree) is Some {
        let (e, _) = parse_expression_prime(s, k, p, acc_tree)->0;
        if eval(e, widen(env)) is Some {
            let (et, dt) = parse_term(s, k, p + tw)->0;
            let n = if t is Plus {
                Expr::Add(Box::new(acc_tree), Box::new(et))
            } else {
                Expr::Sub(Box::new(acc_tree), Box::new(et))
            };
            lemma_term_complete(s, k, env, p + tw);
            lemma_sum_seed_defined(s, k, p + tw + dt, n, widen(env));
            if let Ok((vt, _)) = term(s, k, env, p + tw) {
                let r = if t is Plus {
                    acc + vt
                } else {
                    acc - vt
                };
                if fits_i32(r) {
                    lemma_expression_prime_complete(s, k, env, p + tw + dt, r as i32, n);
                }
            }
        }
    }
}

proof fn lemma_term_complete(s: Seq<char>, k: Seq<CharClass>, env: Bindings, p: nat)
    ensures
        tree_complete(parse_term(s, k, p), term(s, k, env, p), env),
    decreases remaining(s, p), 1nat,
{
    if let Some((e, _)) = parse_term(s, k, p) {
        if eval(e, widen(env)) is Some {
            let (ef, df) = parse_factor(s, k, p)->0;
            lemma_factor_complete(s, k, env, p);
            lemma_product_seed_defined(s, k, p + df, ef, widen(env));
            if let Ok((vf, _)) = factor(s, k, env, p) {
                lemma_term_prime_complete(s, k, env, p + df, vf, ef);
            }
        }
    }
}

proof fn lemma_term_prime_complete(s: Seq<char>, k: Seq<CharClass>, env: Bindings, p: nat, acc: i32, acc_tree: Expr)
    requires
        eval(acc_tree, widen(env)) == Some(acc as int),
    ensures
        tree_complete(parse_term_prime(s, k, p, acc_tree), term_prime(s, k, env, p, acc), env),
    decreases remaining(s, p), 0nat,
{
    let tw = width(s, k, p);
    lemma_token_consumes(s, k, p);
    if lookahead(s, k, p) is Multiply && parse_term_prime(s, k, p, acc_tree) is Some {
        let (e, _) = parse_term_prime(s, k, p, acc_tree)->0;
        if eval(e, widen(env)) is Some {
            let (ef, df) = parse_factor(s, k, p + tw)->0;
            let n = Expr::Mul(Box::new(acc_tree), Box::new(ef));
            lemma_factor_complete(s, k, env, p + tw);
            lemma_product_seed_defined(s, k, p + tw + df, n, widen(env));
            if let Ok((vf, _)) = factor(s, k, env, p + tw) {
                if fits_i32(acc * vf) {
                    lemma_term_prime_complete(s, k, env, p + tw + df, (acc * vf) as i32, n);
                }
            }
        }
    }
}

proof fn lemma_factor_complete(s: Seq<char>, k: Seq<CharClass>, env: Bindings, p: nat)
    ensures
        tree_complete(parse_factor(s, k, p), factor(s, k, env, p), env),
    decreases remaining(s, p), 0nat,
{
    let tw = width(s, k, p);
    lemma_token_consumes(s, k, p);
    match lookahead(s, k, p) {
        TokenView::LeftParenthesis => {
            lemma_expression_complete(s, k, env, p + tw);
        },
        TokenView::Plus => {
            lemma_factor_complete(s, k, env, p + tw);
        },
        TokenView::Minus => {
            lemma_factor_complete(s, k, env, p + tw);
        },
        _ => {},
    }
}

proof fn lemma_assignment_complete(s: Seq<char>, k: Seq<CharClass>, env: Bindings, p: nat)
    ensures
        match parse_assignment(s, k, p) {
            Some(((name, e), d)) => match eval(e, widen(env)) {
                Some(v) => (fits_throughout(e, widen(env)) ==> assignment(s, k, env, p) is Ok) && (
                assignment(s, k, env, p) == Err::<(Bindings, nat), EvalErrorView>(
                    EvalErrorView::Overflow,
                ) || ({
                    let (next, d1) = assignment(s, k, env, p)->Ok_0;
                    assignment(s, k, env, p) is Ok && d1 == d && widen(next) == widen(env).insert(name, v)
                })),
                None => true,
            },
            None => true,
        },
{
    reveal(assignment);
    let tw = width(s, k, p);
    let q = p + tw;
    if let TokenView::Id(name) = lookahead(s, k, p) {
        lemma_expression_complete(s, k, env, q + width(s, k, q));
        if let Ok((v, _)) = expression(s, k, env, q + width(s, k, q)) {
            lemma_widen_insert(env, name, v);
        }
    }
}

proof fn lemma_program_complete(s: Seq<char>, k: Seq<CharClass>, env: Bindings, p: nat)
    ensures
        match parse_program(s, k, p) {
            Some(stmts) => match run_statements(stmts, widen(env)) {
                Some(m) => (statements_fit(stmts, widen(env)) ==> program(s, k, env, p) is Ok) && (
                program(s, k, env, p) == Err::<Bindings, EvalErrorView>(EvalErrorView::Overflow) || (
                program(s, k, env, p) is Ok && widen(program(s, k, env, p)->Ok_0) == m)),
                None => true,
            },
            None => true,
        },
    decreases remaining(s, p),
{
    lemma_token_consumes(s, k, p);
    if let Some((st, d)) = parse_assignment(s, k, p) {
        lemma_assignment_complete(s, k, env, p);
        crate::semantics::lemma_assignment_consumes(s, k, env, p);
        if let Ok((next, _)) = assignment(s, k, env, p) {
            if lookahead(s, k, p + d) == TokenView::EndOfFile {
                let stmts = seq![st];
                assert(stmts.drop_first() =~= Seq::<(Seq<char>, Expr)>::empty());
                assert(stmts[0] == st);
                if let Some(v) = eval(st.1, widen(env)) {
                    let w = widen(env).insert(st.0, v);
                    assert(run_statements(stmts.drop_first(), w) == Some(w));
                }
            } else {
                lemma_token_consumes(s, k, p + d);
                lemma_program_complete(s, k, next, p + d);
                if let Some(rest) = parse_program(s, k, p + d) {
                    let stmts = seq![st] + rest;
                    assert(stmts.drop_first() =~= rest);
                    assert(stmts[0] == st);
                }
            }
        }
    }
}

/// A text that parses as a program whose statements have values over the
/// integers runs to exactly those bindings, unless a value along the way
/// leaves the range of `i32`; and where every value along the way fits in
/// `i32`, the run succeeds.
pub proof fn lemma_well_formed_programs_evaluate(s: Seq<char>, k: Seq<CharClass>)
    requires
        parse_program(s, k, 0) is Some,
        run_statements(parse_program(s, k, 0)->0, Map::empty()) is Some,
    ensures
        evaluate(s, k) == Err::<Bindings, EvalErrorView>(EvalErrorView::Overflow) || (evaluate(s, k) is Ok
            && widen(evaluate(s, k)->Ok_0) == run_statements(parse_program(s, k, 0)->0, Map::empty())->0),
        statements_fit(parse_program(s, k, 0)->0, Map::empty()) ==> evaluate(s, k) is Ok,
{
    lemma_program_complete(s, k, Map::empty(), 0);
    assert(widen(Map::<Seq<char>, i32>::empty()) =~= Map::<Seq<char>, int>::empty());
}

} // verus!
