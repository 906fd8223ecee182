//! A refinement of [`UnsignedDecimal`] that rules out zero.

use vstd::prelude::*;

use crate::error::Fault;
use crate::unsigned_decimal::{
    scaled_div, unsigned_text_of, unsigned_text_ok, unsigned_text_val, UnsignedDecimal,
};

verus! {

/// A decimal value strictly greater than zero: an [`UnsignedDecimal`]
/// whose magnitude is checked to be nonzero at every construction site.
#[derive(PartialEq, Eq, Structural, PartialOrd, Ord, Clone, Copy, Debug)]
pub struct PositiveDecimal {
    value: UnsignedDecimal,
}

impl View for PositiveDecimal {
    type V = nat;

    closed spec fn view(&self) -> nat {
        self.value@
    }
}

impl PositiveDecimal {
    /// The refinement invariant: the value is strictly positive (and, like
    /// every decimal here, fits the stored word).
    pub open spec fn wf(&self) -> bool {
        0 < self@ <= u64::MAX
    }

    /// Checks that `value` is not zero and wraps it.
    pub fn new(value: UnsignedDecimal) -> (r: Result<Self, Fault>)
        ensures
            r is Ok <==> value@ != 0,
            r is Ok ==> r->Ok_0@ == value@ && r->Ok_0.wf(),
            r is Err ==> r->Err_0 == Fault::InvalidRefinement,
    {
        if value.is_zero() {
            Err(Fault::InvalidRefinement)
        } else {
            proof {
                crate::unsigned_decimal::lemma_unsigned_decimal_bound(value);
            }
            Ok(PositiveDecimal { value })
        }
    }

    /// The underlying unsigned value.
    pub fn get_unsigned(&self) -> (r: UnsignedDecimal)
        ensures
            r@ == self@,
    {
        self.value
    }

    /// Reads decimal text, refusing a zero value.
    pub fn parse_text(s: &str) -> (r: Result<Self, Fault>)
        ensures
            r is Ok <==> (unsigned_text_ok(s@) && unsigned_text_val(s@) != 0),
            r is Ok ==> r->Ok_0@ == unsigned_text_val(s@) && r->Ok_0.wf(),
            r is Err ==> r->Err_0 == (if !unsigned_text_ok(s@) {
                Fault::ParseError
            } else {
                Fault::InvalidRefinement
            }),
    {
        match UnsignedDecimal::parse_text(s) {
            Ok(value) => PositiveDecimal::new(value),
            Err(e) => Err(e),
        }
    }

    /// Writes this value as decimal text.
    pub fn format_text(&self) -> (r: String)
        ensures
            r@ == unsigned_text_of(self@),
    {
        self.value.format_text()
    }

    /// Exact sum; two positive values always have a positive sum.
    pub fn add(self, rhs: Self) -> (r: Self)
        requires
            self.wf(),
            rhs.wf(),
            self@ + rhs@ <= u64::MAX,
        ensures
            r@ == self@ + rhs@,
            r.wf(),
    {
        PositiveDecimal { value: self.value.add(rhs.value) }
    }

    /// Exact sum, in place.
    pub fn add_assign(&mut self, rhs: Self)
        requires
            old(self).wf(),
            rhs.wf(),
            old(self)@ + rhs@ <= u64::MAX,
        ensures
            final(self)@ == old(self)@ + rhs@,
            final(self).wf(),
    {
        self.value.add_assign(rhs.value);
    }

    /// Exact difference; fails whenever the result would not be strictly
    /// positive (stricter than unsigned subtraction, since zero is ruled
    /// out).
    pub fn checked_sub(self, rhs: Self) -> (r: Result<Self, Fault>)
        ensures
            r is Ok <==> rhs@ < self@,
            r is Ok ==> r->Ok_0@ == self@ - rhs@ && r->Ok_0.wf(),
            r is Err ==> r->Err_0 == Fault::NonPositiveResult,
    {
        match self.value.checked_sub(rhs.value) {
            Ok(diff) => match PositiveDecimal::new(diff) {
                Ok(r) => Ok(r),
                Err(_) => Err(Fault::NonPositiveResult),
            },
            Err(_) => Err(Fault::NonPositiveResult),
        }
    }

    /// Fixed-point quotient of two positive values. The result is only
    /// unsigned: a small numerator can floor to zero.
    pub fn div(self, rhs: Self) -> (r: UnsignedDecimal)
        requires
            self.wf(),
            rhs.wf(),
            scaled_div(self@, rhs@) <= u64::MAX,
        ensures
            r@ == scaled_div(self@, rhs@),
    {
        self.value.div(rhs.value)
    }
}

} // verus!
