//! Why an evaluation fails.

use vstd::prelude::*;
use crate::token::{Token, TokenView};

verus! {

/// The grammar rule whose alternatives the lookahead token did not start.
#[derive(Debug, Clone, Copy, PartialEq, Eq, Structural)]
pub enum Construct {
    Assignment,
    Expression,
    Term,
    Factor,
}

/// Why an evaluation failed. The first error met ends the run.
#[derive(Debug, Clone, PartialEq, Eq)]
pub enum EvalError {
    /// The grammar required `expected` where `found` stood.
    UnexpectedToken { expected: Token, found: Token },
    /// A variable was read before any assignment to it.
    UninitializedVariable { name: String },
    /// `found` starts no alternative of `construct`.
    MalformedConstruct { construct: Construct, found: Token },
    /// A value left the range of `i32`.
    Overflow,
}

pub enum EvalErrorView {
    UnexpectedToken { expected: TokenView, found: TokenView },
    UninitializedVariable { name: Seq<char> },
    MalformedConstruct { construct: Construct, found: TokenView },
    Overflow,
}

impl View for EvalError {
    type V = EvalErrorView;

    open spec fn view(&self) -> EvalErrorView {
        match self {
            EvalError::UnexpectedToken { expected, found } => EvalErrorView::UnexpectedToken {
                expected: expected@,
                found: found@,
            },
            EvalError::UninitializedVariable { name } => EvalErrorView::UninitializedVariable {
                name: name@,
            },
            EvalError::MalformedConstruct { construct, found } => EvalErrorView::MalformedConstruct {
                construct: *construct,
                found: found@,
            },
            EvalError::Overflow => EvalErrorView::Overflow,
        }
    }
}

} // verus!
