use vstd::prelude::*;

verus! {

/// The binary connectives of sentential logic.
///
/// Negation is not among them: it is a count carried by every node.
#[derive(Debug, Clone, Copy, PartialEq, Eq, Structural)]
pub enum Operator {
    /// Conjunction.
    AND,
    /// Disjunction.
    OR,
    /// Conditional.
    CON,
    /// Biconditional.
    BICON,
}

/// How tightly a connective binds; higher binds tighter.
pub open spec fn spec_precedence(op: Operator) -> u8 {
    match op {
        Operator::AND => 3,
        Operator::OR => 3,
        Operator::CON => 2,
        Operator::BICON => 1,
    }
}

/// The truth function of a connective.
pub open spec fn apply(op: Operator, left: bool, right: bool) -> bool {
    match op {
        Operator::AND => left && right,
        Operator::OR => left || right,
        Operator::CON => !left || right,
        Operator::BICON => left == right,
    }
}

impl Operator {
    /// Whether this is a conjunction.
    pub fn is_and(&self) -> (r: bool)
        ensures
            r == (*self == Operator::AND),
    {
        match self {
            Operator::AND => true,
            _ => false,
        }
    }

    /// Whether this is a disjunction.
    pub fn is_or(&self) -> (r: bool)
        ensures
            r == (*self == Operator::OR),
    {
        match self {
            Operator::OR => true,
            _ => false,
        }
    }

    /// Whether this is a conditional.
    pub fn is_con(&self) -> (r: bool)
        ensures
            r == (*self == Operator::CON),
    {
        match self {
            Operator::CON => true,
            _ => false,
        }
    }

    /// Whether this is a biconditional.
    pub fn is_bicon(&self) -> (r: bool)
        ensures
            r == (*self == Operator::BICON),
    {
        match self {
            Operator::BICON => true,
            _ => false,
        }
    }

    /// The precedence: AND and OR 3, CON 2, BICON 1.
    pub fn precedence(&self) -> (r: u8)
        ensures
            r == spec_precedence(*self),
    {
        match self {
            Operator::AND => 3,
            Operator::OR => 3,
            Operator::CON => 2,
            Operator::BICON => 1,
        }
    }

    /// Applies the connective to two truth values.
    pub fn execute(&self, left: bool, right: bool) -> (r: bool)
        ensures
            r == apply(*self, left, right),
    {
        match self {
            Operator::AND => left && right,
            Operator::OR => left || right,
            Operator::CON => !left || right,
            Operator::BICON => left == right,
        }
    }
}

} // verus!
