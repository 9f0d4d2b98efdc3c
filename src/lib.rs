//! A scanner and a recursive-descent evaluator for a small language of
//! semicolon-terminated integer assignments.

pub mod token;
pub mod tokenizer;
pub mod environment;
pub mod error;
pub mod semantics;
pub mod interpreter;
pub mod laws;
pub mod tree;

pub use token::Token;
pub use tokenizer::{CharClass, Tokenizer, classify};
pub use environment::Environment;
pub use error::{Construct, EvalError};
pub use interpreter::Interpreter;
