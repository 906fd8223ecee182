//! The fixed-point decimal core: a non-negative value scaled by `10^6`,
//! stored in a machine word wide enough that every product of two
//! representable values fits a double-width intermediate.

use vstd::prelude::*;

use crate::error::Fault;
use crate::text::{
    all_digits, digit_char, digit_val, digits_of, digits_val, is_digit_char, lemma_digits_of_props,
    lemma_digits_val_prefix_mono, lemma_digits_val_snoc, lemma_padded_props, lemma_pow10_increases,
    padded_digits, pow10,
};

verus! {

/// Fixed number of fractional decimal digits carried by every value.
pub const FRAC_DIGITS: u64 = 6;

/// Scale factor: one whole unit is `MULTIPLIER` raw units.
pub const MULTIPLIER: u64 = 1_000_000;

/// Truncating fixed-point product: `(a * b) / 10^6` on raw values.
pub open spec fn scaled_mul(a: nat, b: nat) -> nat {
    (a * b) / 1_000_000
}

/// Flooring fixed-point quotient: `(a * 10^6) / b` on raw values.
pub open spec fn scaled_div(a: nat, b: nat) -> nat
    recommends
        b > 0,
{
    (a * 1_000_000) / b
}

/// Index of the first `.` in `s`, or `s.len()` if there is none.
pub open spec fn find_dot(s: Seq<char>) -> int
    decreases s.len(),
{
    if s.len() == 0 {
        0
    } else if s[0] == '.' {
        0
    } else {
        1 + find_dot(s.drop_first())
    }
}

/// `find_dot` always points inside the text or just past its end.
pub proof fn lemma_find_dot_bounds(s: Seq<char>)
    ensures
        0 <= find_dot(s) <= s.len(),
    decreases s.len(),
{
    if s.len() > 0 && s[0] != '.' {
        lemma_find_dot_bounds(s.drop_first());
    }
}

/// When `find_dot` points inside the text, it points at a `.`.
pub proof fn lemma_find_dot_hit(s: Seq<char>)
    requires
        find_dot(s) < s.len(),
    ensures
        0 <= find_dot(s),
        s[find_dot(s)] == '.',
    decreases s.len(),
{
    lemma_find_dot_bounds(s);
    if s.len() > 0 && s[0] != '.' {
        lemma_find_dot_bounds(s.drop_first());
        lemma_find_dot_hit(s.drop_first());
    }
}

/// If no `.` occurs before position `d`, and `d` is the end or holds a `.`,
/// then `d` is where `find_dot` points.
pub proof fn lemma_find_dot_at(s: Seq<char>, d: int)
    requires
        0 <= d <= s.len(),
        forall|j: int| 0 <= j < d ==> s[j] != '.',
        d < s.len() ==> s[d] == '.',
    ensures
        find_dot(s) == d,
    decreases s.len(),
{
    if s.len() > 0 && s[0] != '.' {
        lemma_find_dot_at(s.drop_first(), d - 1);
    }
}

/// Does `s` follow the grammar `digits ['.' one-to-six digits]`, with a
/// value small enough to represent?
pub open spec fn unsigned_text_ok(s: Seq<char>) -> bool {
    let d = find_dot(s);
    &&& 1 <= d
    &&& all_digits(s.take(d))
    &&& (d < s.len() ==> {
        let fl = s.len() - d - 1;
        &&& 1 <= fl <= 6
        &&& all_digits(s.skip(d + 1))
    })
    &&& unsigned_text_val(s) <= u64::MAX
}

/// The raw value written by `s`: the whole part scaled by `10^6` plus the
/// fractional digits padded out to six places.
pub open spec fn unsigned_text_val(s: Seq<char>) -> nat {
    let d = find_dot(s);
    let whole = digits_val(s.take(d));
    if d == s.len() {
        whole * 1_000_000
    } else {
        let frac = s.skip(d + 1);
        whole * 1_000_000 + digits_val(frac) * pow10((6 - frac.len()) as nat)
    }
}

/// The fractional digits `f` (out of `10^w` places) with trailing zeros
/// removed.
pub open spec fn trimmed_frac(f: nat, w: nat) -> Seq<char>
    decreases w,
{
    if w == 0 {
        Seq::empty()
    } else if f % 10 == 0 {
        trimmed_frac(f / 10, (w - 1) as nat)
    } else {
        padded_digits(f, w)
    }
}

/// The canonical text for the raw value `v`: the whole part, then — only if
/// the fraction is not zero — a dot and the fraction with trailing zeros
/// trimmed.
pub open spec fn unsigned_text_of(v: nat) -> Seq<char> {
    let whole = v / 1_000_000;
    let frac = v % 1_000_000;
    if frac == 0 {
        digits_of(whole)
    } else {
        digits_of(whole) + seq!['.'] + trimmed_frac(frac, 6)
    }
}

/// The first seven powers of ten, spelled out.
pub proof fn lemma_pow10_values()
    ensures
        pow10(0) == 1,
        pow10(1) == 10,
        pow10(2) == 100,
        pow10(3) == 1_000,
        pow10(4) == 10_000,
        pow10(5) == 100_000,
        pow10(6) == 1_000_000,
{
    assert(pow10(1) == 10 * pow10(0));
    assert(pow10(2) == 10 * pow10(1));
    assert(pow10(3) == 10 * pow10(2));
    assert(pow10(4) == 10 * pow10(3));
    assert(pow10(5) == 10 * pow10(4));
    assert(pow10(6) == 10 * pow10(5));
}

/// A digit string of length `n` writes a value below `10^n`.
pub proof fn lemma_digits_val_bound(s: Seq<char>)
    requires
        all_digits(s),
    ensures
        digits_val(s) < pow10(s.len()),
    decreases s.len(),
{
    if s.len() == 0 {
    } else {
        assert(all_digits(s.drop_last())) by {
            assert(forall|i: int|
                0 <= i < s.len() - 1 ==> #[trigger] s.drop_last()[i] == s[i]);
        }
        lemma_digits_val_bound(s.drop_last());
        let p = pow10((s.len() - 1) as nat);
        assert(digit_val(s.last()) <= 9);
        assert(digits_val(s.drop_last()) <= p - 1);
        assert(digits_val(s.drop_last()) * 10 <= (p - 1) * 10) by (nonlinear_arith)
            requires
                digits_val(s.drop_last()) <= p - 1,
                p >= 1,
        ;
        assert(pow10(s.len()) == 10 * p);
    }
}

/// `trimmed_frac(f, w)` spells the digits of `f` without its trailing
/// zeros; rescaling what it spells recovers `f`.
pub proof fn lemma_trimmed_props(f: nat, w: nat)
    requires
        0 < f < pow10(w),
    ensures
        all_digits(trimmed_frac(f, w)),
        1 <= trimmed_frac(f, w).len() <= w,
        digits_val(trimmed_frac(f, w)) * pow10((w - trimmed_frac(f, w).len()) as nat) == f,
    decreases w,
{
    assert(w >= 1) by {
        if w == 0 {
            assert(pow10(0) == 1);
        }
    }
    if f % 10 == 0 {
        assert(f >= 10) by {
            if f < 10 {
                assert(f % 10 == f);
            }
        }
        assert(f / 10 >= 1);
        assert(f == (f / 10) * 10) by {
            assert(f == (f / 10) * 10 + f % 10) by (nonlinear_arith);
        }
        assert(f / 10 < pow10((w - 1) as nat)) by {
            assert(pow10(w) == 10 * pow10((w - 1) as nat));
            assert(f / 10 < pow10((w - 1) as nat)) by (nonlinear_arith)
                requires
                    f < 10 * pow10((w - 1) as nat),
            ;
        }
        lemma_trimmed_props(f / 10, (w - 1) as nat);
        let t = trimmed_frac(f / 10, (w - 1) as nat);
        assert(trimmed_frac(f, w) == t);
        let rest = ((w - 1) - t.len()) as nat;
        assert(digits_val(t) * pow10(rest) == f / 10);
        assert(pow10((w - t.len()) as nat) == 10 * pow10(rest));
        assert(digits_val(t) * (10 * pow10(rest)) == (digits_val(t) * pow10(rest)) * 10)
            by (nonlinear_arith);
        assert(digits_val(t) * pow10((w - t.len()) as nat) == (f / 10) * 10);
        assert(digits_val(trimmed_frac(f, w)) * pow10((w - trimmed_frac(f, w).len()) as nat) == f);
    } else {
        lemma_padded_props(f, w);
        assert(trimmed_frac(f, w) == padded_digits(f, w));
        assert(pow10(0) == 1);
        assert(digits_val(padded_digits(f, w)) * pow10(0) == f) by (nonlinear_arith)
            requires
                digits_val(padded_digits(f, w)) == f,
                pow10(0) == 1,
        ;
        assert(digits_val(trimmed_frac(f, w)) * pow10((w - trimmed_frac(f, w).len()) as nat) == f);
    }
}

/// Round trip: the canonical text of any representable value parses back
/// to exactly that value. This covers zero, values with one to six
/// fractional digits, and values whose fraction ends in zeros.
pub proof fn lemma_text_round_trip(v: nat)
    requires
        v <= u64::MAX,
    ensures
        unsigned_text_ok(unsigned_text_of(v)),
        unsigned_text_val(unsigned_text_of(v)) == v,
{
    let w = v / 1_000_000;
    let f = v % 1_000_000;
    assert(v == w * 1_000_000 + f && f < 1_000_000) by (nonlinear_arith)
        requires
            w == v / 1_000_000,
            f == v % 1_000_000,
    ;
    lemma_digits_of_props(w);
    let dd = digits_of(w);
    assert forall|j: int| 0 <= j < dd.len() implies dd[j] != '.' by {
        assert(is_digit_char(dd[j]));
        if dd[j] == '.' {
            assert(('.' as u32) == 46);
        }
    }
    if f == 0 {
        let text = unsigned_text_of(v);
        assert(text == dd);
        lemma_find_dot_at(text, text.len() as int);
        assert(text.take(text.len() as int) =~= text);
    } else {
        lemma_pow10_values();
        lemma_trimmed_props(f, 6);
        let tf = trimmed_frac(f, 6);
        let text = unsigned_text_of(v);
        assert(text == dd + seq!['.'] + tf);
        let dl = dd.len() as int;
        assert(text.len() == dd.len() + 1 + tf.len());
        assert forall|j: int| 0 <= j < dl implies text[j] != '.' by {
            assert(text[j] == dd[j]);
        }
        assert(text[dl] == '.');
        lemma_find_dot_at(text, dl);
        assert(text.take(dl) =~= dd);
        assert(text.skip(dl + 1) =~= tf);
        assert(unsigned_text_val(text) == w * 1_000_000 + digits_val(tf) * pow10(
            (6 - tf.len()) as nat,
        ));
        assert(unsigned_text_val(text) == v);
    }
}

/// A decimal value `>= 0` with six fractional digits, stored as its
/// magnitude in raw `10^-6` units.
#[derive(PartialEq, Eq, Structural, PartialOrd, Ord, Clone, Copy, Debug)]
pub struct UnsignedDecimal {
    value: u64,
}

impl View for UnsignedDecimal {
    type V = nat;

    closed spec fn view(&self) -> nat {
        self.value as nat
    }
}

/// Every value of [`UnsignedDecimal`] fits the machine word it is stored in.
pub broadcast proof fn lemma_unsigned_decimal_bound(d: UnsignedDecimal)
    ensures
        #[trigger] d@ <= u64::MAX,
{
}

impl UnsignedDecimal {
    /// Wraps a raw count of `10^-6` units.
    pub fn from_raw_value(value: u64) -> (r: Self)
        ensures
            r@ == value,
    {
        UnsignedDecimal { value }
    }

    /// The raw count of `10^-6` units.
    pub fn get_raw_value(&self) -> (r: u64)
        ensures
            r == self@,
    {
        self.value
    }

    /// The value zero.
    pub fn zero() -> (r: Self)
        ensures
            r@ == 0,
    {
        UnsignedDecimal { value: 0 }
    }

    /// Is this the value zero?
    pub fn is_zero(&self) -> (r: bool)
        ensures
            r == (self@ == 0),
    {
        self.value == 0
    }

    /// Exact sum.
    pub fn add(self, rhs: Self) -> (r: Self)
        requires
            self@ + rhs@ <= u64::MAX,
        ensures
            r@ == self@ + rhs@,
    {
        UnsignedDecimal { value: self.value + rhs.value }
    }

    /// Exact sum, in place.
    pub fn add_assign(&mut self, rhs: Self)
        requires
            old(self)@ + rhs@ <= u64::MAX,
        ensures
            final(self)@ == old(self)@ + rhs@,
    {
        self.value = self.value + rhs.value;
    }

    /// Exact difference; refuses to go below zero, and never wraps or
    /// saturates.
    pub fn checked_sub(&self, rhs: Self) -> (r: Result<UnsignedDecimal, Fault>)
        ensures
            r is Ok <==> rhs@ <= self@,
            r is Ok ==> r->Ok_0@ == self@ - rhs@,
            r is Err ==> r->Err_0 == Fault::Underflow,
    {
        let x = self.value;
        let y = rhs.value;
        if x >= y {
            Ok(UnsignedDecimal { value: x - y })
        } else {
            Err(Fault::Underflow)
        }
    }

    /// Exact difference in place; on failure the value is left unchanged.
    pub fn checked_sub_assign(&mut self, rhs: UnsignedDecimal) -> (r: Result<(), Fault>)
        ensures
            r is Ok <==> rhs@ <= old(self)@,
            r is Ok ==> final(self)@ == old(self)@ - rhs@,
            r is Err ==> final(self)@ == old(self)@ && r->Err_0 == Fault::Underflow,
    {
        match self.checked_sub(rhs) {
            Ok(value) => {
                *self = value;
                Ok(())
            },
            Err(e) => Err(e),
        }
    }

    /// Fixed-point product `(a * b) / 10^6`, truncated toward zero, computed
    /// in a double-width intermediate.
    pub fn mul(self, rhs: Self) -> (r: Self)
        requires
            scaled_mul(self@, rhs@) <= u64::MAX,
        ensures
            r@ == scaled_mul(self@, rhs@),
    {
        let wide: u128 = (self.value as u128) * (rhs.value as u128) / (MULTIPLIER as u128);
        UnsignedDecimal { value: wide as u64 }
    }

    /// Fixed-point quotient `(a * 10^6) / b`, floored, computed in a
    /// double-width intermediate. The divisor must be a (checked) positive
    /// value.
    pub fn div(self, rhs: Self) -> (r: Self)
        requires
            rhs@ > 0,
            scaled_div(self@, rhs@) <= u64::MAX,
        ensures
            r@ == scaled_div(self@, rhs@),
    {
        let wide: u128 = (self.value as u128) * (MULTIPLIER as u128) / (rhs.value as u128);
        UnsignedDecimal { value: wide as u64 }
    }

    /// Fixed-point quotient that reports a zero divisor as
    /// [`Fault::DivisionByZero`] instead of treating it as unreachable.
    pub fn checked_div(self, rhs: Self) -> (r: Result<UnsignedDecimal, Fault>)
        requires
            rhs@ > 0 ==> scaled_div(self@, rhs@) <= u64::MAX,
        ensures
            r is Ok <==> rhs@ > 0,
            r is Ok ==> r->Ok_0@ == scaled_div(self@, rhs@),
            r is Err ==> r->Err_0 == Fault::DivisionByZero,
    {
        if rhs.value == 0 {
            Err(Fault::DivisionByZero)
        } else {
            Ok(self.div(rhs))
        }
    }
}

impl UnsignedDecimal {
    /// Reads the digit run `s[from..to]` as a whole number.
    fn parse_digits(s: &str, from: usize, to: usize) -> (r: Result<u64, Fault>)
        requires
            from <= to <= s@.len(),
        ensures
            r is Ok <==> (from < to && all_digits(s@.subrange(from as int, to as int))
                && digits_val(s@.subrange(from as int, to as int)) <= u64::MAX),
            r is Ok ==> r->Ok_0 == digits_val(s@.subrange(from as int, to as int)),
            r is Err ==> r->Err_0 == Fault::ParseError,
    {
        let ghost sub = s@.subrange(from as int, to as int);
        if from >= to {
            return Err(Fault::ParseError);
        }
        let mut acc: u64 = 0;
        let mut i = from;
        while i < to
            invariant
                from <= i <= to <= s@.len(),
                sub == s@.subrange(from as int, to as int),
                all_digits(sub.take(i - from)),
                acc == digits_val(sub.take(i - from)),
            decreases to - i,
        {
            let c = s.get_char(i);
            let cv = c as u32;
            proof {
                assert(sub[i - from] == s@[i as int]);
            }
            if cv < 48 || cv > 57 {
                proof {
                    assert(!is_digit_char(sub[i - from]));
                }
                return Err(Fault::ParseError);
            }
            let d = (cv - 48) as u64;
            proof {
                assert(is_digit_char(sub[i - from]));
                assert(digit_val(sub[i - from]) == d);
                assert(sub.take(i - from + 1).drop_last() =~= sub.take(i - from));
                assert(sub.take(i - from + 1).last() == sub[i - from]);
            }
            if acc > (u64::MAX - d) / 10 {
                proof {
                    let big = digits_val(sub.take(i - from + 1));
                    assert(big == acc * 10 + d);
                    assert(acc >= (u64::MAX - d) / 10 + 1);
                    assert(acc * 10 + d > u64::MAX) by (nonlinear_arith)
                        requires
                            acc >= (u64::MAX - d) / 10 + 1,
                            d <= 9,
                    ;
                    lemma_digits_val_prefix_mono(sub, i - from + 1, sub.len() as int);
                    assert(sub.take(sub.len() as int) =~= sub);
                    assert(digits_val(sub) > u64::MAX);
                }
                return Err(Fault::ParseError);
            }
            proof {
                assert(acc * 10 + d <= u64::MAX) by (nonlinear_arith)
                    requires
                        acc <= (u64::MAX - d) / 10,
                        d <= 9,
                ;
                assert(all_digits(sub.take(i - from + 1))) by {
                    assert(forall|j: int|
                        0 <= j < i - from ==> #[trigger] sub.take(i - from + 1)[j] == sub.take(
                            i - from,
                        )[j]);
                }
            }
            acc = acc * 10 + d;
            i += 1;
        }
        proof {
            assert(sub.take(i - from) =~= sub);
        }
        Ok(acc)
    }

    /// Reads a run of fractional digits — between one and six of them —
    /// and scales the result out to six decimal places.
    pub fn parse_fraction(s: &str) -> (r: Result<u64, Fault>)
        ensures
            r is Ok <==> (1 <= s@.len() <= 6 && all_digits(s@)),
            r is Ok ==> r->Ok_0 == digits_val(s@) * pow10((6 - s@.len()) as nat) && r->Ok_0
                < 1_000_000,
            r is Err ==> r->Err_0 == Fault::ParseError,
    {
        let n = s.unicode_len();
        if n == 0 || n > 6 {
            return Err(Fault::ParseError);
        }
        proof {
            assert(s@.subrange(0, n as int) =~= s@);
            lemma_pow10_values();
            if all_digits(s@) {
                lemma_digits_val_bound(s@);
                assert(pow10(s@.len()) <= pow10(6)) by {
                    lemma_pow10_increases(s@.len(), 6);
                }
            }
        }
        let v = match Self::parse_digits(s, 0, n) {
            Ok(v) => v,
            Err(_) => {
                return Err(Fault::ParseError);
            },
        };
        proof {
            lemma_digits_val_bound(s@);
            lemma_pow10_values();
            assert(digits_val(s@) * pow10(0) == digits_val(s@) * 1);
        }
        let mut x = v;
        let mut k = n;
        while k < 6
            invariant
                n <= k <= 6,
                n == s@.len(),
                all_digits(s@),
                x == digits_val(s@) * pow10((k - n) as nat),
                x < pow10(k as nat),
            decreases 6 - k,
        {
            proof {
                lemma_pow10_values();
                assert(pow10((k + 1 - n) as nat) == 10 * pow10((k - n) as nat));
                assert(digits_val(s@) * (10 * pow10((k - n) as nat)) == (digits_val(s@) * pow10(
                    (k - n) as nat,
                )) * 10) by (nonlinear_arith);
                assert(pow10((k + 1) as nat) == 10 * pow10(k as nat));
            }
            x = x * 10;
            k = k + 1;
        }
        proof {
            lemma_pow10_values();
        }
        Ok(x)
    }
}

impl UnsignedDecimal {
    /// Reads the text `digits ['.' one-to-six digits]` as an unsigned
    /// decimal value; rejects anything else, and values too large to
    /// represent.
    pub fn parse_text(s: &str) -> (r: Result<Self, Fault>)
        ensures
            r is Ok <==> unsigned_text_ok(s@),
            r is Ok ==> r->Ok_0@ == unsigned_text_val(s@),
            r is Err ==> r->Err_0 == Fault::ParseError,
    {
        let n = s.unicode_len();
        let mut d: usize = 0;
        while d < n && s.get_char(d) != '.'
            invariant
                n == s@.len(),
                0 <= d <= n,
                forall|j: int| 0 <= j < d ==> s@[j] != '.',
            decreases n - d,
        {
            d += 1;
        }
        proof {
            lemma_find_dot_at(s@, d as int);
            assert(s@.subrange(0, d as int) =~= s@.take(d as int));
        }
        let whole = match Self::parse_digits(s, 0, d) {
            Ok(w) => w,
            Err(_) => {
                proof {
                    if 1 <= d && all_digits(s@.take(d as int)) {
                        // the digits alone must then have overflowed, so the
                        // scaled value certainly does not fit
                        let wv = digits_val(s@.take(d as int));
                        assert(wv > u64::MAX);
                        assert(wv * 1_000_000 >= wv) by (nonlinear_arith);
                        assert(unsigned_text_val(s@) > u64::MAX);
                    }
                }
                return Err(Fault::ParseError);
            },
        };
        let fv: u64 = if d < n {
            let frac_part = s.substring_char(d + 1, n);
            proof {
                assert(frac_part@ =~= s@.skip(d + 1));
            }
            match Self::parse_fraction(frac_part) {
                Ok(f) => f,
                Err(_) => {
                    return Err(Fault::ParseError);
                },
            }
        } else {
            0
        };
        if whole > u64::MAX / MULTIPLIER {
            proof {
                let q = (u64::MAX / 1_000_000) as nat;
                assert(u64::MAX == q * 1_000_000 + u64::MAX % 1_000_000) by (nonlinear_arith)
                    requires
                        q == (u64::MAX / 1_000_000) as nat,
                ;
                assert(whole * 1_000_000 >= (q + 1) * 1_000_000) by (nonlinear_arith)
                    requires
                        whole >= q + 1,
                ;
                assert((q + 1) * 1_000_000 == q * 1_000_000 + 1_000_000) by (nonlinear_arith);
                assert(whole * 1_000_000 > u64::MAX);
                assert(unsigned_text_val(s@) > u64::MAX);
            }
            return Err(Fault::ParseError);
        }
        proof {
            let q = (u64::MAX / 1_000_000) as nat;
            assert(u64::MAX == q * 1_000_000 + u64::MAX % 1_000_000) by (nonlinear_arith)
                requires
                    q == (u64::MAX / 1_000_000) as nat,
            ;
            assert(whole * 1_000_000 <= q * 1_000_000) by (nonlinear_arith)
                requires
                    whole <= q,
            ;
        }
        let scaled = whole * MULTIPLIER;
        if fv > u64::MAX - scaled {
            proof {
                assert(unsigned_text_val(s@) > u64::MAX);
            }
            return Err(Fault::ParseError);
        }
        Ok(UnsignedDecimal { value: scaled + fv })
    }

    /// Appends the single decimal digit `d`.
    fn push_digit(out: &mut String, d: u64)
        requires
            d < 10,
        ensures
            final(out)@ == old(out)@ + seq![digit_char(d as nat)],
    {
        proof {
            reveal_strlit("0");
            reveal_strlit("1");
            reveal_strlit("2");
            reveal_strlit("3");
            reveal_strlit("4");
            reveal_strlit("5");
            reveal_strlit("6");
            reveal_strlit("7");
            reveal_strlit("8");
            reveal_strlit("9");
        }
        if d == 0 {
            out.append("0");
        } else if d == 1 {
            out.append("1");
        } else if d == 2 {
            out.append("2");
        } else if d == 3 {
            out.append("3");
        } else if d == 4 {
            out.append("4");
        } else if d == 5 {
            out.append("5");
        } else if d == 6 {
            out.append("6");
        } else if d == 7 {
            out.append("7");
        } else if d == 8 {
            out.append("8");
        } else {
            out.append("9");
        }
        proof {
            assert(out@ =~= old(out)@ + seq![digit_char(d as nat)]);
        }
    }

    /// Appends the shortest decimal spelling of `n`.
    fn push_digits(out: &mut String, n: u64)
        ensures
            final(out)@ == old(out)@ + digits_of(n as nat),
        decreases n,
    {
        if n < 10 {
            Self::push_digit(out, n);
        } else {
            Self::push_digits(out, n / 10);
            Self::push_digit(out, n % 10);
            proof {
                assert(out@ =~= old(out)@ + digits_of(n as nat));
            }
        }
    }

    /// Appends `n` in exactly `w` decimal places, with leading zeros.
    fn push_padded(out: &mut String, n: u64, w: u64)
        ensures
            final(out)@ == old(out)@ + padded_digits(n as nat, w as nat),
        decreases w,
    {
        if w == 0 {
            proof {
                assert(out@ =~= old(out)@ + padded_digits(n as nat, 0));
            }
        } else {
            Self::push_padded(out, n / 10, w - 1);
            Self::push_digit(out, n % 10);
            proof {
                assert(out@ =~= old(out)@ + padded_digits(n as nat, w as nat));
            }
        }
    }

    /// Writes this value as text: the whole part, and the fraction — with
    /// trailing zeros trimmed — only when it is not zero.
    pub fn format_text(&self) -> (r: String)
        ensures
            r@ == unsigned_text_of(self@),
    {
        let mut out = String::new();
        let whole = self.value / MULTIPLIER;
        let frac = self.value % MULTIPLIER;
        Self::push_digits(&mut out, whole);
        if frac != 0 {
            proof {
                reveal_strlit(".");
            }
            out.append(".");
            let mut f = frac;
            let mut w: u64 = FRAC_DIGITS;
            proof {
                lemma_pow10_values();
            }
            while f % 10 == 0
                invariant
                    0 < f,
                    1 <= w <= 6,
                    f < pow10(w as nat),
                    trimmed_frac(frac as nat, 6) == trimmed_frac(f as nat, w as nat),
                decreases f,
            {
                proof {
                    assert(f >= 10) by {
                        if f < 10 {
                            assert(f % 10 == f);
                        }
                    }
                    assert(pow10(w as nat) == 10 * pow10((w - 1) as nat));
                    assert(f / 10 < pow10((w - 1) as nat)) by (nonlinear_arith)
                        requires
                            f < 10 * pow10((w - 1) as nat),
                    ;
                    assert(w >= 2) by {
                        if w == 1 {
                            assert(pow10(0) == 1);
                        }
                    }
                }
                f = f / 10;
                w = w - 1;
            }
            Self::push_padded(&mut out, f, w);
            proof {
                assert(out@ =~= unsigned_text_of(self@));
            }
        } else {
            proof {
                assert(out@ =~= unsigned_text_of(self@));
            }
        }
        out
    }
}

impl Default for UnsignedDecimal {
    /// The default value is zero.
    fn default() -> (r: Self)
        ensures
            r@ == 0,
    {
        UnsignedDecimal { value: 0 }
    }
}

} // verus!
