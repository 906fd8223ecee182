//! A signed counterpart of [`UnsignedDecimal`]: a magnitude and a sign
//! flag, with the invariant that zero is never marked negative.

use vstd::prelude::*;

use vstd::math::abs;

use crate::error::Fault;
use crate::unsigned_decimal::{
    unsigned_text_of, unsigned_text_ok, unsigned_text_val, UnsignedDecimal,
};

verus! {

/// Does `s` spell a signed decimal: an optional leading minus — never on
/// zero — followed by unsigned decimal text?
pub open spec fn signed_text_ok(s: Seq<char>) -> bool {
    if s.len() >= 1 && s[0] == '-' {
        unsigned_text_ok(s.skip(1)) && unsigned_text_val(s.skip(1)) != 0
    } else {
        unsigned_text_ok(s)
    }
}

/// The signed value written by `s`.
pub open spec fn signed_text_val(s: Seq<char>) -> int {
    if s.len() >= 1 && s[0] == '-' {
        -(unsigned_text_val(s.skip(1)) as int)
    } else {
        unsigned_text_val(s) as int
    }
}

/// The canonical text for the signed value `v`.
pub open spec fn signed_text_of(v: int) -> Seq<char> {
    if v < 0 {
        seq!['-'] + unsigned_text_of((-v) as nat)
    } else {
        unsigned_text_of(v as nat)
    }
}

/// A signed decimal: a non-negative magnitude paired with a sign flag.
/// The flag is `false` whenever the magnitude is zero, so there is no
/// negative zero; this is re-established at every construction site.
#[derive(PartialEq, Eq, Structural, PartialOrd, Ord, Clone, Copy, Debug)]
pub struct SignedDecimal {
    value: UnsignedDecimal,
    negative: bool,
}

impl View for SignedDecimal {
    type V = int;

    closed spec fn view(&self) -> int {
        if self.negative {
            -(self.value@ as int)
        } else {
            self.value@ as int
        }
    }
}

impl SignedDecimal {
    /// The invariant: no negative zero, and the magnitude fits its word.
    pub closed spec fn wf(&self) -> bool {
        self.negative ==> self.value@ > 0
    }

    /// A well-formed signed decimal has a representable magnitude.
    pub proof fn lemma_wf_bound(self)
        ensures
            abs(self@) <= u64::MAX,
    {
        crate::unsigned_decimal::lemma_unsigned_decimal_bound(self.value);
    }

    /// Builds a value from a magnitude and a sign, quietly clearing the
    /// sign on a zero magnitude.
    pub fn from_raw_value(value: UnsignedDecimal, negative: bool) -> (r: Self)
        ensures
            r.wf(),
            r@ == if negative {
                -(value@ as int)
            } else {
                value@ as int
            },
    {
        SignedDecimal { value, negative: negative && !value.is_zero() }
    }

    /// The magnitude.
    pub fn get_raw_value(&self) -> (r: UnsignedDecimal)
        ensures
            r@ == abs(self@),
    {
        self.value
    }

    /// Is the value strictly negative?
    pub fn is_negative(&self) -> (r: bool)
        requires
            self.wf(),
        ensures
            r == (self@ < 0),
    {
        self.negative
    }

    /// The additive inverse.
    pub fn negate(self) -> (r: SignedDecimal)
        requires
            self.wf(),
        ensures
            r.wf(),
            r@ == -self@,
    {
        SignedDecimal::from_raw_value(self.value, !self.negative)
    }

    /// Exact sum, by cases on the two signs.
    pub fn add(self, rhs: Self) -> (r: Self)
        requires
            self.wf(),
            rhs.wf(),
            abs(self@) + abs(rhs@) <= u64::MAX,
        ensures
            r.wf(),
            r@ == self@ + rhs@,
    {
        if !self.negative && !rhs.negative {
            SignedDecimal { value: self.value.add(rhs.value), negative: false }
        } else if self.negative && rhs.negative {
            SignedDecimal { value: self.value.add(rhs.value), negative: true }
        } else {
            // opposite signs: the magnitudes cancel
            let a = self.value.get_raw_value();
            let b = rhs.value.get_raw_value();
            if a >= b {
                SignedDecimal::from_raw_value(
                    UnsignedDecimal::from_raw_value(a - b),
                    self.negative,
                )
            } else {
                SignedDecimal::from_raw_value(
                    UnsignedDecimal::from_raw_value(b - a),
                    rhs.negative,
                )
            }
        }
    }

    /// Exact difference, as a sum with the negated subtrahend.
    pub fn sub(self, rhs: Self) -> (r: Self)
        requires
            self.wf(),
            rhs.wf(),
            abs(self@) + abs(rhs@) <= u64::MAX,
        ensures
            r.wf(),
            r@ == self@ - rhs@,
    {
        self.add(rhs.negate())
    }

    /// Reads signed decimal text; a minus sign on a zero value is refused.
    pub fn parse_text(s: &str) -> (r: Result<Self, Fault>)
        ensures
            r is Ok <==> signed_text_ok(s@),
            r is Ok ==> r->Ok_0@ == signed_text_val(s@) && r->Ok_0.wf(),
            r is Err ==> r->Err_0 == (if s@.len() >= 1 && s@[0] == '-' && unsigned_text_ok(
                s@.skip(1),
            ) && unsigned_text_val(s@.skip(1)) == 0 {
                Fault::InvalidRefinement
            } else {
                Fault::ParseError
            }),
    {
        let n = s.unicode_len();
        if n >= 1 && s.get_char(0) == '-' {
            let rest = s.substring_char(1, n);
            proof {
                assert(rest@ =~= s@.skip(1));
            }
            match UnsignedDecimal::parse_text(rest) {
                Ok(v) => {
                    if v.is_zero() {
                        Err(Fault::InvalidRefinement)
                    } else {
                        Ok(SignedDecimal { value: v, negative: true })
                    }
                },
                Err(e) => Err(e),
            }
        } else {
            match UnsignedDecimal::parse_text(s) {
                Ok(v) => Ok(SignedDecimal { value: v, negative: false }),
                Err(e) => Err(e),
            }
        }
    }

    /// Writes this value as text: a minus sign for negative values, then
    /// the magnitude.
    pub fn format_text(&self) -> (r: String)
        requires
            self.wf(),
        ensures
            r@ == signed_text_of(self@),
    {
        let mag = self.value.format_text();
        if self.negative {
            let mut out = String::new();
            proof {
                reveal_strlit("-");
            }
            out.append("-");
            out.append(mag.as_str());
            proof {
                assert(out@ =~= signed_text_of(self@));
            }
            out
        } else {
            mag
        }
    }
}

/// Round trip for signed text: the canonical text of any representable
/// signed value parses back to exactly that value.
pub proof fn lemma_signed_text_round_trip(v: int)
    requires
        abs(v) <= u64::MAX,
    ensures
        signed_text_ok(signed_text_of(v)),
        signed_text_val(signed_text_of(v)) == v,
{
    if v < 0 {
        crate::unsigned_decimal::lemma_text_round_trip((-v) as nat);
        let u = unsigned_text_of((-v) as nat);
        let text = signed_text_of(v);
        assert(text == seq!['-'] + u);
        assert(text[0] == '-');
        assert(text.skip(1) =~= u);
        assert(unsigned_text_val(text.skip(1)) == -v);
    } else {
        crate::unsigned_decimal::lemma_text_round_trip(v as nat);
        let text = signed_text_of(v);
        // an unsigned spelling never starts with a minus sign
        if text.len() >= 1 && text[0] == '-' {
            assert(unsigned_text_ok(text));
            let d = crate::unsigned_decimal::find_dot(text);
            crate::unsigned_decimal::lemma_find_dot_bounds(text);
            assert(text.take(d)[0] == text[0]);
            assert(crate::text::is_digit_char(text.take(d)[0]));
            assert(('-' as u32) == 45);
        }
    }
}

} // verus!
