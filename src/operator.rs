use vstd::prelude::*;

verus! {

/// Operators of the expression language. `Paren` and `Call` are sentinels
/// that only live on the expression builder's operator stack.
#[derive(Debug, PartialEq, Eq, Structural, Clone, Copy)]
pub enum Operator {
    Paren,
    Call,
    LogicalOr,
    LogicalAnd,
    BitwiseOr,
    BitwiseXor,
    BitwiseAnd,
    Equal,
    NotEqual,
    LessThan,
    GreaterThan,
    LessThanEqual,
    GreaterThanEqual,
    ShiftLeft,
    ShiftRight,
    Plus,
    Minus,
    Negate,
    Multiply,
    Divide,
    Modulo,
    Power,
    IntegerDivide,
    UnaryNot,
    UnaryMinus,
}

/// Binding strength of an operator; higher binds tighter.
pub open spec fn prec(op: Operator) -> int {
    match op {
        Operator::Paren | Operator::Call => 0,
        Operator::LogicalOr => 1,
        Operator::LogicalAnd => 2,
        Operator::BitwiseOr => 3,
        Operator::BitwiseXor => 4,
        Operator::BitwiseAnd => 5,
        Operator::Equal | Operator::NotEqual => 6,
        Operator::LessThan | Operator::GreaterThan | Operator::LessThanEqual
        | Operator::GreaterThanEqual => 7,
        Operator::ShiftLeft | Operator::ShiftRight => 8,
        Operator::Plus | Operator::Minus | Operator::Negate => 9,
        Operator::Multiply | Operator::Divide | Operator::IntegerDivide | Operator::Modulo => 11,
        Operator::UnaryNot | Operator::UnaryMinus => 12,
        Operator::Power => 13,
    }
}

/// The two stack-only markers of the expression builder.
pub open spec fn is_sentinel(op: Operator) -> bool {
    op == Operator::Paren || op == Operator::Call
}

/// Operators that take a single operand.
pub open spec fn is_unary(op: Operator) -> bool {
    op == Operator::UnaryNot || op == Operator::UnaryMinus
}

impl Operator {
    /// Returns the operator's precedence.
    pub fn get_prec(&self) -> (r: i32)
        ensures
            r == prec(*self),
            0 <= r <= 13,
            r == 0 <==> is_sentinel(*self),
    {
        match *self {
            Operator::Paren => 0,
            Operator::Call => 0,
            Operator::LogicalOr => 1,
            Operator::LogicalAnd => 2,
            Operator::BitwiseOr => 3,
            Operator::BitwiseXor => 4,
            Operator::BitwiseAnd => 5,
            Operator::Equal => 6,
            Operator::NotEqual => 6,
            Operator::LessThan => 7,
            Operator::GreaterThan => 7,
            Operator::LessThanEqual => 7,
            Operator::GreaterThanEqual => 7,
            Operator::ShiftLeft => 8,
            Operator::ShiftRight => 8,
            Operator::Plus => 9,
            Operator::Minus => 9,
            Operator::Negate => 9,
            Operator::Multiply => 11,
            Operator::Divide => 11,
            Operator::IntegerDivide => 11,
            Operator::Modulo => 11,
            Operator::UnaryNot => 12,
            Operator::UnaryMinus => 12,
            Operator::Power => 13,
        }
    }
}

} // verus!
