use vstd::prelude::*;

use crate::negation::Negation;
use crate::operator::Operator;

verus! {

/// What a token stands for.
pub enum Token {
    Op(u32, Operator),
    Var(u32, Seq<char>),
    Const(u32, bool),
    Paren,
    Tilde(u32),
}

/// A token of an infix expression, as the shunting-yard algorithm moves it
/// between its output and its operator stack.
#[derive(Debug)]
pub enum Shell {
    /// A binary connective with its negation signs.
    Operator(Negation, Operator),
    /// A variable with its negation signs.
    Variable(Negation, String),
    /// A constant with its negation signs.
    Constant(Negation, bool),
    /// An opening parenthesis.
    Parentheses,
    /// Negation signs still waiting for what they apply to.
    Tilde(Negation),
}

impl View for Shell {
    type V = Token;

    open spec fn view(&self) -> Token {
        match self {
            Shell::Operator(n, op) => Token::Op(n@, *op),
            Shell::Variable(n, name) => Token::Var(n@, name@),
            Shell::Constant(n, v) => Token::Const(n@, *v),
            Shell::Parentheses => Token::Paren,
            Shell::Tilde(n) => Token::Tilde(n@),
        }
    }
}

/// The tokens that a sequence of shells stands for.
pub open spec fn tokens_of(v: Seq<Shell>) -> Seq<Token> {
    v.map_values(|t: Shell| t@)
}

impl Shell {
    /// Whether the shell is an operator.
    pub fn is_operator(&self) -> (r: bool)
        ensures
            r == (self@ is Op),
    {
        match self {
            Shell::Operator(..) => true,
            _ => false,
        }
    }

    /// Whether the shell is a variable.
    pub fn is_variable(&self) -> (r: bool)
        ensures
            r == (self@ is Var),
    {
        match self {
            Shell::Variable(..) => true,
            _ => false,
        }
    }

    /// Whether the shell is a constant.
    pub fn is_constant(&self) -> (r: bool)
        ensures
            r == (self@ is Const),
    {
        match self {
            Shell::Constant(..) => true,
            _ => false,
        }
    }

    /// Whether the shell is an opening parenthesis.
    pub fn is_parentheses(&self) -> (r: bool)
        ensures
            r == (self@ is Paren),
    {
        match self {
            Shell::Parentheses => true,
            _ => false,
        }
    }

    /// Whether the shell holds pending negation signs.
    pub fn is_tilde(&self) -> (r: bool)
        ensures
            r == (self@ is Tilde),
    {
        match self {
            Shell::Tilde(..) => true,
            _ => false,
        }
    }
}

} // verus!
