//! Literals of two-literal clauses.
use vstd::prelude::*;

verus! {

/// A literal: a variable with a polarity.
#[derive(Clone, Copy, Debug, PartialEq, Eq, Structural)]
pub struct Literal {
    /// Variable index.
    pub var: u16,
    /// True = positive literal (xi), false = negated literal (!xi).
    pub positive: bool,
}

impl Literal {
    /// Create a new positive literal.
    pub fn pos(var: u16) -> (r: Literal)
        ensures
            r == (Literal { var, positive: true }),
    {
        Literal { var, positive: true }
    }

    /// Create a new negative literal.
    pub fn neg(var: u16) -> (r: Literal)
        ensures
            r == (Literal { var, positive: false }),
    {
        Literal { var, positive: false }
    }
}

} // verus!
