//! What a program means. Each rule reads the text `s`, in which `k` gives the
//! class of each character, from position `p`, and yields a value and the
//! number of characters it consumed, or the first error. Operators of one
//! level are folded from the left; any error ends the run at once.

use vstd::prelude::*;
use crate::token::TokenView;
use crate::error::{Construct, EvalErrorView};
use crate::tokenizer::{CharClass, scan, lemma_scan_bounds};

verus! {

/// The bindings of variable names to values.
pub type Bindings = Map<Seq<char>, i32>;

/// An outcome of a rule: the value and the number of characters consumed.
pub type Outcome = Result<(i32, nat), EvalErrorView>;

/// The number of characters left from position `p`.
pub open spec fn remaining(s: Seq<char>, p: nat) -> nat {
    if p < s.len() {
        (s.len() - p) as nat
    } else {
        0
    }
}

/// The token that starts at position `p` (after any whitespace).
pub open spec fn lookahead(s: Seq<char>, k: Seq<CharClass>, p: nat) -> TokenView {
    scan(s, k, p).0
}

/// The number of characters that the token at `p` takes, whitespace before it included.
pub open spec fn width(s: Seq<char>, k: Seq<CharClass>, p: nat) -> nat {
    scan(s, k, p).1
}

pub open spec fn starts_operand(t: TokenView) -> bool {
    t is Id || t is Literal || t is LeftParenthesis || t is Plus || t is Minus
}

pub open spec fn fits_i32(v: int) -> bool {
    i32::MIN <= v <= i32::MAX
}

/// A token other than the end of input takes at least one character, and
/// starts before the end.
pub proof fn lemma_token_consumes(s: Seq<char>, k: Seq<CharClass>, p: nat)
    ensures
        lookahead(s, k, p) != TokenView::EndOfFile ==> p < s.len() && width(s, k, p) > 0,
{
    reveal(scan);
    if p <= s.len() {
        lemma_scan_bounds(s, k, p);
    }
}

/// `expression := term expression_prime`
pub open spec fn expression(s: Seq<char>, k: Seq<CharClass>, env: Bindings, p: nat) -> Outcome
    decreases remaining(s, p), 2nat,
{
    let t = lookahead(s, k, p);
    if !starts_operand(t) {
        Err(EvalErrorView::MalformedConstruct { construct: Construct::Expression, found: t })
    } else {
        match term(s, k, env, p) {
            Err(e) => Err(e),
            Ok((v, d)) => match expression_prime(s, k, env, p + d, v) {
                Err(e) => Err(e),
                Ok((r, d2)) => Ok((r, d + d2)),
            },
        }
    }
}

/// `expression_prime := ('+' | '-') term expression_prime | ε`, folded from
/// the left onto `acc`, the value of what stands before it.
pub open spec fn expression_prime(s: Seq<char>, k: Seq<CharClass>, env: Bindings, p: nat, acc: i32) -> Outcome
    decreases remaining(s, p), 1nat,
{
    let t = lookahead(s, k, p);
    let tw = width(s, k, p);
    if t is Plus || t is Minus {
        proof {
            lemma_token_consumes(s, k, p);
        }
        match term(s, k, env, p + tw) {
            Err(e) => Err(e),
            Ok((v, d)) => {
                let r = if t is Plus {
                    acc + v
                } else {
                    acc - v
                };
                if !fits_i32(r) {
                    Err(EvalErrorView::Overflow)
                } else {
                    match expression_prime(s, k, env, p + tw + d, r as i32) {
                        Err(e) => Err(e),
                        Ok((x, d2)) => Ok((x, tw + d + d2)),
                    }
                }
            },
        }
    } else {
        Ok((acc, 0))
    }
}

/// `term := factor term_prime`
pub open spec fn term(s: Seq<char>, k: Seq<CharClass>, env: Bindings, p: nat) -> Outcome
    decreases remaining(s, p), 1nat,
{
    let t = lookahead(s, k, p);
    if !starts_operand(t) {
        Err(EvalErrorView::MalformedConstruct { construct: Construct::Term, found: t })
    } else {
        match factor(s, k, env, p) {
            Err(e) => Err(e),
            Ok((v, d)) => match term_prime(s, k, env, p + d, v) {
                Err(e) => Err(e),
                Ok((r, d2)) => Ok((r, d + d2)),
            },
        }
    }
}

/// `term_prime := '*' factor term_prime | ε`, folded from the left onto `acc`.
pub open spec fn term_prime(s: Seq<char>, k: Seq<CharClass>, env: Bindings, p: nat, acc: i32) -> Outcome
    decreases remaining(s, p), 0nat,
{
    let t = lookahead(s, k, p);
    let tw = width(s, k, p);
    if t is Multiply {
        proof {
            lemma_token_consumes(s, k, p);
        }
        match factor(s, k, env, p + tw) {
            Err(e) => Err(e),
            Ok((v, d)) => {
                let r = acc * v;
                if !fits_i32(r) {
                    Err(EvalErrorView::Overflow)
                } else {
                    match term_prime(s, k, env, p + tw + d, r as i32) {
                        Err(e) => Err(e),
                        Ok((x, d2)) => Ok((x, tw + d + d2)),
                    }
                }
            },
        }
    } else {
        Ok((acc, 0))
    }
}

/// `factor := identifier | literal | '(' expression ')' | '+' factor | '-' factor`
pub open spec fn factor(s: Seq<char>, k: Seq<CharClass>, env: Bindings, p: nat) -> Outcome
    decreases remaining(s, p), 0nat,
{
    let t = lookahead(s, k, p);
    let tw = width(s, k, p);
    proof {
        lemma_token_consumes(s, k, p);
    }
    match t {
        TokenView::Id(name) => if env.contains_key(name) {
            Ok((env[name], tw))
        } else {
            Err(EvalErrorView::UninitializedVariable { name })
        },
        TokenView::Literal(v) => Ok((v, tw)),
        TokenView::LeftParenthesis => match expression(s, k, env, p + tw) {
            Err(e) => Err(e),
            Ok((v, d)) => {
                let q = p + tw + d;
                if lookahead(s, k, q) == TokenView::RightParenthesis {
                    Ok((v, tw + d + width(s, k, q)))
                } else {
                    Err(
                        EvalErrorView::UnexpectedToken {
                            expected: TokenView::RightParenthesis,
                            found: lookahead(s, k, q),
                        },
                    )
                }
            },
        },
        TokenView::Plus => match factor(s, k, env, p + tw) {
            Err(e) => Err(e),
            Ok((v, d)) => Ok((v, tw + d)),
        },
        TokenView::Minus => match factor(s, k, env, p + tw) {
            Err(e) => Err(e),
            Ok((v, d)) => if v == i32::MIN {
                Err(EvalErrorView::Overflow)
            } else {
                Ok(((-v) as i32, tw + d))
            },
        },
        _ => Err(EvalErrorView::MalformedConstruct { construct: Construct::Factor, found: t }),
    }
}

/// `assignment := identifier '=' expression ';'`: the bindings after it and
/// the number of characters consumed.
#[verifier::opaque]
pub open spec fn assignment(s: Seq<char>, k: Seq<CharClass>, env: Bindings, p: nat) -> Result<
    (Bindings, nat),
    EvalErrorView,
> {
    let tw = width(s, k, p);
    match lookahead(s, k, p) {
        TokenView::Id(name) => {
            let q = p + tw;
            if lookahead(s, k, q) != TokenView::Assign {
                Err(
                    EvalErrorView::UnexpectedToken {
                        expected: TokenView::Assign,
                        found: lookahead(s, k, q),
                    },
                )
            } else {
                match expression(s, k, env, q + width(s, k, q)) {
                    Err(e) => Err(e),
                    Ok((v, d)) => {
                        let r = q + width(s, k, q) + d;
                        if lookahead(s, k, r) != TokenView::Semicolon {
                            Err(
                                EvalErrorView::UnexpectedToken {
                                    expected: TokenView::Semicolon,
                                    found: lookahead(s, k, r),
                                },
                            )
                        } else {
                            Ok((env.insert(name, v), tw + width(s, k, q) + d + width(s, k, r)))
                        }
                    },
                }
            }
        },
        t => Err(EvalErrorView::MalformedConstruct { construct: Construct::Assignment, found: t }),
    }
}

/// A successful assignment consumes at least one character.
pub proof fn lemma_assignment_consumes(s: Seq<char>, k: Seq<CharClass>, env: Bindings, p: nat)
    ensures
        assignment(s, k, env, p) is Ok ==> p < s.len() && assignment(s, k, env, p)->Ok_0.1 > 0,
{
    reveal(assignment);
    lemma_token_consumes(s, k, p);
}

/// `program := assignment+`: the assignments from position `p` to the end,
/// starting from the bindings `env`.
pub open spec fn program(s: Seq<char>, k: Seq<CharClass>, env: Bindings, p: nat) -> Result<Bindings, EvalErrorView>
    decreases remaining(s, p),
{
    proof {
        lemma_assignment_consumes(s, k, env, p);
    }
    match assignment(s, k, env, p) {
        Err(e) => Err(e),
        Ok((next, d)) => if lookahead(s, k, p + d) == TokenView::EndOfFile {
            Ok(next)
        } else {
            proof {
                lemma_token_consumes(s, k, p + d);
            }
            program(s, k, next, p + d)
        },
    }
}

/// The result of running a whole source text from empty bindings.
pub open spec fn evaluate(s: Seq<char>, k: Seq<CharClass>) -> Result<Bindings, EvalErrorView> {
    program(s, k, Map::empty(), 0)
}

} // verus!
