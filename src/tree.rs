//! Syntax trees for the same grammar, and their value over the mathematical
//! integers: the reference against which evaluation is proved.

use vstd::prelude::*;
use crate::token::TokenView;
use crate::tokenizer::CharClass;
use crate::semantics::{remaining, lookahead, width, starts_operand, lemma_token_consumes};

verus! {

/// A syntax tree of an expression.
pub enum Expr {
    Num(int),
    Var(Seq<char>),
    Neg(Box<Expr>),
    Add(Box<Expr>, Box<Expr>),
    Sub(Box<Expr>, Box<Expr>),
    Mul(Box<Expr>, Box<Expr>),
}

/// The value of a tree over the mathematical integers; `None` where it reads
/// an unbound variable.
pub open spec fn eval(e: Expr, env: Map<Seq<char>, int>) -> Option<int>
    decreases e,
{
    match e {
        Expr::Num(n) => Some(n),
        Expr::Var(x) => if env.contains_key(x) {
            Some(env[x])
        } else {
            None
        },
        Expr::Neg(a) => match eval(*a, env) {
            Some(v) => Some(-v),
            None => None,
        },
        Expr::Add(a, b) => match (eval(*a, env), eval(*b, env)) {
            (Some(x), Some(y)) => Some(x + y),
            _ => None,
        },
        Expr::Sub(a, b) => match (eval(*a, env), eval(*b, env)) {
            (Some(x), Some(y)) => Some(x - y),
            _ => None,
        },
        Expr::Mul(a, b) => match (eval(*a, env), eval(*b, env)) {
            (Some(x), Some(y)) => Some(x * y),
            _ => None,
        },
    }
}

/// Every subtree of `e` has a value, and each of those values fits in `i32`.
pub open spec fn fits_throughout(e: Expr, env: Map<Seq<char>, int>) -> bool
    decreases e,
{
    &&& match eval(e, env) {
        Some(v) => i32::MIN <= v <= i32::MAX,
        None => false,
    }
    &&& match e {
        Expr::Neg(a) => fits_throughout(*a, env),
        Expr::Add(a, b) => fits_throughout(*a, env) && fits_throughout(*b, env),
        Expr::Sub(a, b) => fits_throughout(*a, env) && fits_throughout(*b, env),
        Expr::Mul(a, b) => fits_throughout(*a, env) && fits_throughout(*b, env),
        _ => true,
    }
}

/// A parsed tree and the number of characters it took.
pub type Parsed = Option<(Expr, nat)>;

/// `expression := term expression_prime`, as a tree.
pub open spec fn parse_expression(s: Seq<char>, k: Seq<CharClass>, p: nat) -> Parsed
    decreases remaining(s, p), 2nat,
{
    if !starts_operand(lookahead(s, k, p)) {
        None
    } else {
        match parse_term(s, k, p) {
            None => None,
            Some((e, d)) => match parse_expression_prime(s, k, p + d, e) {
                None => None,
                Some((r, d2)) => Some((r, d + d2)),
            },
        }
    }
}

/// The rest of a sum, with the operators grouped from the left onto `acc`.
pub open spec fn parse_expression_prime(s: Seq<char>, k: Seq<CharClass>, p: nat, acc: Expr) -> Parsed
    decreases remaining(s, p), 1nat,
{
    let t = lookahead(s, k, p);
    let tw = width(s, k, p);
    if t is Plus || t is Minus {
        proof {
            lemma_token_consumes(s, k, p);
        }
        match parse_term(s, k, p + tw) {
            None => None,
            Some((e, d)) => {
                let n = if t is Plus {
                    Expr::Add(Box::new(acc), Box::new(e))
                } else {
                    Expr::Sub(Box::new(acc), Box::new(e))
                };
                match parse_expression_prime(s, k, p + tw + d, n) {
                    None => None,
                    Some((r, d2)) => Some((r, tw + d + d2)),
                }
            },
        }
    } else {
        Some((acc, 0))
    }
}

/// `term := factor term_prime`, as a tree.
pub open spec fn parse_term(s: Seq<char>, k: Seq<CharClass>, p: nat) -> Parsed
    decreases remaining(s, p), 1nat,
{
    if !starts_operand(lookahead(s, k, p)) {
        None
    } else {
        match parse_factor(s, k, p) {
            None => None,
            Some((e, d)) => match parse_term_prime(s, k, p + d, e) {
                None => None,
                Some((r, d2)) => Some((r, d + d2)),
            },
        }
    }
}

/// The rest of a product, grouped from the left onto `acc`.
pub open spec fn parse_term_prime(s: Seq<char>, k: Seq<CharClass>, p: nat, acc: Expr) -> Parsed
    decreases remaining(s, p), 0nat,
{
    let tw = width(s, k, p);
    if lookahead(s, k, p) is Multiply {
        proof {
            lemma_token_consumes(s, k, p);
        }
        match parse_factor(s, k, p + tw) {
            None => None,
            Some((e, d)) => match parse_term_prime(s, k, p + tw + d, Expr::Mul(Box::new(acc), Box::new(e))) {
                None => None,
                Some((r, d2)) => Some((r, tw + d + d2)),
            },
        }
    } else {
        Some((acc, 0))
    }
}

/// `factor`, as a tree.
pub open spec fn parse_factor(s: Seq<char>, k: Seq<CharClass>, p: nat) -> Parsed
    decreases remaining(s, p), 0nat,
{
    let tw = width(s, k, p);
    proof {
        lemma_token_consumes(s, k, p);
    }
    match lookahead(s, k, p) {
        TokenView::Id(name) => Some((Expr::Var(name), tw)),
        TokenView::Literal(v) => Some((Expr::Num(v as int), tw)),
        TokenView::LeftParenthesis => match parse_expression(s, k, p + tw) {
            None => None,
            Some((e, d)) => if lookahead(s, k, p + tw + d) == TokenView::RightParenthesis {
                Some((e, tw + d + width(s, k, p + tw + d)))
            } else {
                None
            },
        },
        TokenView::Plus => match parse_factor(s, k, p + tw) {
            None => None,
            Some((e, d)) => Some((e, tw + d)),
        },
        TokenView::Minus => match parse_factor(s, k, p + tw) {
            None => None,
            Some((e, d)) => Some((Expr::Neg(Box::new(e)), tw + d)),
        },
        _ => None,
    }
}

/// An assignment statement: the name assigned and the tree of its right side.
pub type Statement = (Seq<char>, Expr);

/// `assignment := identifier '=' expression ';'`, as a statement.
pub open spec fn parse_assignment(s: Seq<char>, k: Seq<CharClass>, p: nat) -> Option<(Statement, nat)> {
    let tw = width(s, k, p);
    let q = p + tw;
    match lookahead(s, k, p) {
        TokenView::Id(name) => if lookahead(s, k, q) != TokenView::Assign {
            None
        } else {
            match parse_expression(s, k, q + width(s, k, q)) {
                None => None,
                Some((e, d)) => {
                    let r = q + width(s, k, q) + d;
                    if lookahead(s, k, r) != TokenView::Semicolon {
                        None
                    } else {
                        Some(((name, e), tw + width(s, k, q) + d + width(s, k, r)))
                    }
                },
            }
        },
        _ => None,
    }
}

/// `program := assignment+`, as the list of its statements.
pub open spec fn parse_program(s: Seq<char>, k: Seq<CharClass>, p: nat) -> Option<Seq<Statement>>
    decreases remaining(s, p),
{
    proof {
        lemma_token_consumes(s, k, p);
    }
    match parse_assignment(s, k, p) {
        None => None,
        Some((st, d)) => if lookahead(s, k, p + d) == TokenView::EndOfFile {
            Some(seq![st])
        } else {
            match parse_program(s, k, p + d) {
                None => None,
                Some(rest) => Some(seq![st] + rest),
            }
        },
    }
}

/// Executes statements in order over the mathematical integers: each binds
/// its name to the value of its tree, overriding an earlier binding.
pub open spec fn run_statements(stmts: Seq<Statement>, env: Map<Seq<char>, int>) -> Option<
    Map<Seq<char>, int>,
>
    decreases stmts.len(),
{
    if stmts.len() == 0 {
        Some(env)
    } else {
        match eval(stmts[0].1, env) {
            None => None,
            Some(v) => run_statements(stmts.drop_first(), env.insert(stmts[0].0, v)),
        }
    }
}

/// Executing the statements in order, every value met along the way fits in
/// `i32`.
pub open spec fn statements_fit(stmts: Seq<Statement>, env: Map<Seq<char>, int>) -> bool
    decreases stmts.len(),
{
    stmts.len() == 0 || (fits_throughout(stmts[0].1, env) && statements_fit(
        stmts.drop_first(),
        env.insert(stmts[0].0, eval(stmts[0].1, env)->0),
    ))
}

/// The bindings with their values read as integers.
pub open spec fn widen(env: Map<Seq<char>, i32>) -> Map<Seq<char>, int> {
    Map::new(|k: Seq<char>| env.contains_key(k), |k: Seq<char>| env[k] as int)
}

} // verus!
