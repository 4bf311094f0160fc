//! Operator names of algebraic decision diagrams.
use vstd::prelude::*;

verus! {

/// ADD binary operators.
#[derive(Clone, Copy, Debug, PartialEq, Eq, Structural)]
pub enum AddOp {
    Plus,
    Times,
    Minus,
    Divide,
    Minimum,
    Maximum,
    Or,
    And,
    Xor,
    Nand,
    Nor,
    /// Returns `f` if `f == g`, else infinity.
    Agree,
}

/// The tag of a binary operator: its position in the declaration.
pub open spec fn add_op_tag(op: AddOp) -> u8 {
    match op {
        AddOp::Plus => 0,
        AddOp::Times => 1,
        AddOp::Minus => 2,
        AddOp::Divide => 3,
        AddOp::Minimum => 4,
        AddOp::Maximum => 5,
        AddOp::Or => 6,
        AddOp::And => 7,
        AddOp::Xor => 8,
        AddOp::Nand => 9,
        AddOp::Nor => 10,
        AddOp::Agree => 11,
    }
}

impl AddOp {
    /// The tag that distinguishes this operator in the operation cache.
    pub fn tag(self) -> (r: u8)
        ensures
            r == add_op_tag(self),
    {
        match self {
            AddOp::Plus => 0,
            AddOp::Times => 1,
            AddOp::Minus => 2,
            AddOp::Divide => 3,
            AddOp::Minimum => 4,
            AddOp::Maximum => 5,
            AddOp::Or => 6,
            AddOp::And => 7,
            AddOp::Xor => 8,
            AddOp::Nand => 9,
            AddOp::Nor => 10,
            AddOp::Agree => 11,
        }
    }
}

/// ADD monadic (unary) operators.
#[derive(Clone, Copy, Debug, PartialEq, Eq, Structural)]
pub enum AddMonadicOp {
    Log,
    Negate,
    /// `1 - x`.
    Complement,
    Abs,
    Floor,
    Ceil,
}

/// The tag of a unary operator: its position in the declaration.
pub open spec fn monadic_op_tag(op: AddMonadicOp) -> u8 {
    match op {
        AddMonadicOp::Log => 0,
        AddMonadicOp::Negate => 1,
        AddMonadicOp::Complement => 2,
        AddMonadicOp::Abs => 3,
        AddMonadicOp::Floor => 4,
        AddMonadicOp::Ceil => 5,
    }
}

impl AddMonadicOp {
    /// The tag that distinguishes this operator in the operation cache.
    pub fn tag(self) -> (r: u8)
        ensures
            r == monadic_op_tag(self),
    {
        match self {
            AddMonadicOp::Log => 0,
            AddMonadicOp::Negate => 1,
            AddMonadicOp::Complement => 2,
            AddMonadicOp::Abs => 3,
            AddMonadicOp::Floor => 4,
            AddMonadicOp::Ceil => 5,
        }
    }
}

/// Distinct operators have distinct tags.
pub proof fn lemma_tags_distinct(a: AddOp, b: AddOp, c: AddMonadicOp, d: AddMonadicOp)
    ensures
        add_op_tag(a) == add_op_tag(b) ==> a == b,
        monadic_op_tag(c) == monadic_op_tag(d) ==> c == d,
{
}

} // verus!
