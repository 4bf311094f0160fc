//! Ordering of [`ApInt`] values.
use vstd::prelude::*;
use std::cmp::Ordering;
use vstd::std_specs::cmp::PartialOrdSpecImpl;
use crate::apa::{ApInt, digits_lt, digits_value, is_canonical, lemma_digits_lt_value, top_less_upto};

verus! {

/// The result of comparing two digit vectors as `ApInt` does.
pub open spec fn digits_order(a: Seq<u32>, b: Seq<u32>) -> Ordering {
    if digits_lt(a, b) {
        Ordering::Less
    } else if digits_lt(b, a) {
        Ordering::Greater
    } else {
        Ordering::Equal
    }
}

/// On canonical digits the comparison is the numeric order of the values.
pub proof fn lemma_order_is_numeric(a: Seq<u32>, b: Seq<u32>)
    requires
        is_canonical(a),
        is_canonical(b),
    ensures
        (digits_order(a, b) == Ordering::Less) <==> digits_value(a) < digits_value(b),
        (digits_order(a, b) == Ordering::Equal) <==> digits_value(a) == digits_value(b),
        (digits_order(a, b) == Ordering::Greater) <==> digits_value(a) > digits_value(b),
{
    lemma_digits_lt_value(a, b);
    lemma_digits_lt_value(b, a);
}

impl ApInt {
    /// Three-way comparison: shorter digit vectors are smaller, equal
    /// lengths compare from the most significant digit.
    pub fn cmp(&self, other: &ApInt) -> (r: Ordering)
        ensures
            r == digits_order(self.digits@, other.digits@),
    {
        let a_len = self.digits.len();
        let b_len = other.digits.len();
        if a_len < b_len {
            return Ordering::Less;
        }
        if a_len > b_len {
            return Ordering::Greater;
        }
        let mut i = a_len;
        while i > 0
            invariant
                i <= a_len,
                a_len == self.digits@.len(),
                a_len == other.digits@.len(),
                top_less_upto(self.digits@, other.digits@, a_len) == top_less_upto(
                    self.digits@,
                    other.digits@,
                    i,
                ),
                top_less_upto(other.digits@, self.digits@, a_len) == top_less_upto(
                    other.digits@,
                    self.digits@,
                    i,
                ),
            decreases i,
        {
            let x = self.digits[i - 1];
            let y = other.digits[i - 1];
            if x < y {
                return Ordering::Less;
            }
            if x > y {
                return Ordering::Greater;
            }
            i -= 1;
        }
        Ordering::Equal
    }
}

impl PartialOrd for ApInt {
    fn partial_cmp(&self, other: &Self) -> (r: Option<Ordering>) {
        Some(self.cmp(other))
    }
}

impl PartialOrdSpecImpl for ApInt {
    open spec fn obeys_partial_cmp_spec() -> bool {
        true
    }

    open spec fn partial_cmp_spec(&self, other: &Self) -> Option<Ordering> {
        Some(digits_order(self.digits@, other.digits@))
    }
}

} // verus!
