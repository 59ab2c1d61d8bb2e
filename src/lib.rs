//! Evaluation of flat arithmetic expressions over non-negative integer
//! literals and the four binary operators `+ - * /`.
//!
//! The pipeline is text → tokens ([`lexer`]) → expression tree → value
//! ([`parser`]). Each stage is specified by spec functions, and the
//! executable code is proved to agree with them.

pub mod error;
pub mod lexer;
pub mod parser;
pub mod round_trip;
pub mod token;

pub use error::EvaluationError;
pub use lexer::{CharPolicy, Lexer};
pub use parser::{MathParser, Node, Operator};
pub use token::Token;
