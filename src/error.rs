use vstd::prelude::*;

verus! {

/// Every error that making, evaluating or managing an expression tree can give.
#[derive(Debug, PartialEq, Eq)]
pub enum ExpressionTreeError {
    /// A variable had no value when the tree was evaluated.
    UninitializedVariable(String),
    /// The expression is empty, or a negation stands where nothing can take it.
    InvalidExpression,
    /// A symbol that the notation does not know.
    UnknownSymbol,
    /// A parenthesis without its partner.
    InvalidParentheses,
    /// An operator lacks an operand.
    TooManyOperators,
    /// Operands are left over with no operator to join them.
    NotEnoughOperators,
    /// A lower-case letter where a variable would stand.
    LowercaseVariables(char),
    /// Two operators of equal precedence meet without parentheses.
    AmbiguousExpression,
}

/// The error kinds, with the missing name as its characters.
pub enum ParseFault {
    Uninitialized(Seq<char>),
    InvalidExpression,
    UnknownSymbol,
    InvalidParentheses,
    TooManyOperators,
    NotEnoughOperators,
    Lowercase(char),
    Ambiguous,
}

/// What an error value stands for.
pub open spec fn fault_of(e: ExpressionTreeError) -> ParseFault {
    match e {
        ExpressionTreeError::UninitializedVariable(s) => ParseFault::Uninitialized(s@),
        ExpressionTreeError::InvalidExpression => ParseFault::InvalidExpression,
        ExpressionTreeError::UnknownSymbol => ParseFault::UnknownSymbol,
        ExpressionTreeError::InvalidParentheses => ParseFault::InvalidParentheses,
        ExpressionTreeError::TooManyOperators => ParseFault::TooManyOperators,
        ExpressionTreeError::NotEnoughOperators => ParseFault::NotEnoughOperators,
        ExpressionTreeError::LowercaseVariables(c) => ParseFault::Lowercase(c),
        ExpressionTreeError::AmbiguousExpression => ParseFault::Ambiguous,
    }
}

} // verus!
