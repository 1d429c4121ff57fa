//! The closed set of lexical symbols an expression is made of.

use vstd::prelude::*;

verus! {

/// One lexical symbol of an expression: an operator, a single-byte literal
/// operand, or a grouping brace. Equality is structural: two `ConstVal`
/// tokens are equal exactly when their byte values are equal.
#[derive(Clone, Copy, PartialEq, Eq, Structural, Debug, Hash)]
pub enum Token {
    AndOp,
    OrOp,
    XorOp,
    NotOp,
    ConstVal(u8),
    LeftBrace,
    RightBrace,
}

} // verus!
