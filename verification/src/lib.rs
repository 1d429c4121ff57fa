//! A small verified interpreter for textual boolean/bitwise expressions over
//! single-byte hexadecimal operands.
//!
//! The pipeline has three stages: the lexer turns an expression string into a
//! sequence of tokens, the postfix parser reorders the infix token sequence
//! into postfix form by operator precedence (shunting yard), and the
//! interpreter reduces the postfix sequence over an operand stack to a single
//! byte. Each stage is configurable through small lookup tables supplied by
//! the caller, and each stage's behaviour is pinned down by its contract.

pub mod interpreter;
pub mod laws;
pub mod lexer;
pub mod parser;
pub mod token;

pub use interpreter::default_evaluate_operation;
pub use interpreter::ArityMap;
pub use interpreter::DefaultOps;
pub use interpreter::EvalError;
pub use interpreter::Interpreter;
pub use interpreter::OpSemantics;
pub use lexer::LexError;
pub use lexer::Lexer;
pub use lexer::LiteralMap;
pub use parser::ParseError;
pub use parser::PostfixParser;
pub use parser::PriorityMap;
pub use token::Token;
