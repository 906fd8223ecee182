//! Currency-tagged amounts: decimals branded with a zero-size marker type
//! so that amounts of different currencies cannot be mixed, plus the
//! `<decimal><SYMBOL>` text encoding.

use core::marker::PhantomData;
use vstd::prelude::*;

use crate::error::Fault;
use crate::positive_decimal::PositiveDecimal;
use crate::text::{is_digit_char, str_eq};
use crate::unsigned_decimal::{
    unsigned_text_of, unsigned_text_ok, unsigned_text_val, UnsignedDecimal,
};

verus! {

/// May `c` appear in the numeric part of a tagged amount?
pub open spec fn is_amount_char(c: char) -> bool {
    is_digit_char(c) || c == '.' || c == '-'
}

/// Index of the first character that cannot belong to the numeric part —
/// the start of the currency symbol — or `s.len()` if there is none.
pub open spec fn find_symbol_start(s: Seq<char>) -> int
    decreases s.len(),
{
    if s.len() == 0 {
        0
    } else if !is_amount_char(s[0]) {
        0
    } else {
        1 + find_symbol_start(s.drop_first())
    }
}

/// `find_symbol_start` points inside the text or just past its end.
pub proof fn lemma_find_symbol_start_bounds(s: Seq<char>)
    ensures
        0 <= find_symbol_start(s) <= s.len(),
    decreases s.len(),
{
    if s.len() > 0 && is_amount_char(s[0]) {
        lemma_find_symbol_start_bounds(s.drop_first());
    }
}

/// If everything before `d` is numeric and `d` is the end or non-numeric,
/// then `d` is where `find_symbol_start` points.
pub proof fn lemma_find_symbol_start_at(s: Seq<char>, d: int)
    requires
        0 <= d <= s.len(),
        forall|j: int| 0 <= j < d ==> is_amount_char(#[trigger] s[j]),
        d < s.len() ==> !is_amount_char(s[d]),
    ensures
        find_symbol_start(s) == d,
    decreases s.len(),
{
    if s.len() > 0 && is_amount_char(s[0]) {
        lemma_find_symbol_start_at(s.drop_first(), d - 1);
    }
}

/// Does `s` read as a decimal amount followed by exactly the symbol of
/// `T`?
pub open spec fn asset_text_ok<T: Asset>(s: Seq<char>) -> bool {
    let d = find_symbol_start(s);
    &&& d < s.len()
    &&& s.skip(d) == T::spec_symbol()
    &&& unsigned_text_ok(s.take(d))
}

/// The raw value of the numeric part of `s`.
pub open spec fn asset_text_val(s: Seq<char>) -> nat {
    unsigned_text_val(s.take(find_symbol_start(s)))
}

/// Which fault a malformed tagged amount produces: no symbol or a bad
/// number is a parse error, while a symbol of the wrong currency is an
/// asset mismatch.
pub open spec fn asset_parse_err<T: Asset>(s: Seq<char>) -> Fault {
    let d = find_symbol_start(s);
    if d == s.len() {
        Fault::ParseError
    } else if s.skip(d) != T::spec_symbol() {
        Fault::AssetMismatch
    } else {
        Fault::ParseError
    }
}

/// Every character of a canonically spelled decimal can belong to the
/// numeric part of a tagged amount.
pub proof fn lemma_unsigned_text_amount_chars(v: nat)
    requires
        v <= u64::MAX,
    ensures
        forall|j: int|
            0 <= j < unsigned_text_of(v).len() ==> is_amount_char(#[trigger] unsigned_text_of(v)[j]),
{
    crate::unsigned_decimal::lemma_text_round_trip(v);
    let u = unsigned_text_of(v);
    let d = crate::unsigned_decimal::find_dot(u);
    crate::unsigned_decimal::lemma_find_dot_bounds(u);
    assert forall|j: int| 0 <= j < u.len() implies is_amount_char(#[trigger] u[j]) by {
        if j < d {
            assert(u[j] == u.take(d)[j]);
            assert(is_digit_char(u[j]));
        } else if j == d {
            crate::unsigned_decimal::lemma_find_dot_hit(u);
        } else {
            assert(u[j] == u.skip(d + 1)[j - d - 1]);
            assert(is_digit_char(u[j]));
        }
    }
}

/// Round trip for tagged amounts: the canonical text of any representable
/// amount — its decimal text followed by the tag's symbol — parses back,
/// under the same tag, to exactly that amount.
pub proof fn lemma_asset_text_round_trip<T: Asset>(v: nat)
    requires
        v <= u64::MAX,
    ensures
        asset_text_ok::<T>(unsigned_text_of(v) + T::spec_symbol()),
        asset_text_val(unsigned_text_of(v) + T::spec_symbol()) == v,
{
    crate::unsigned_decimal::lemma_text_round_trip(v);
    lemma_unsigned_text_amount_chars(v);
    T::lemma_symbol_wf();
    let u = unsigned_text_of(v);
    let text = u + T::spec_symbol();
    assert(forall|j: int| 0 <= j < u.len() ==> #[trigger] text[j] == u[j]);
    assert(text[u.len() as int] == T::spec_symbol()[0]);
    lemma_find_symbol_start_at(text, u.len() as int);
    assert(text.take(u.len() as int) =~= u);
    assert(text.skip(u.len() as int) =~= T::spec_symbol());
}

/// A currency marker: a zero-size type identifying one currency by its
/// canonical symbol.
pub trait Asset: Sized {
    /// The canonical symbol, as the character sequence `as_str` returns.
    spec fn spec_symbol() -> Seq<char>;

    /// A symbol is nonempty, starts with a character that cannot occur in
    /// a number (so the symbol's start can be found), and contains no
    /// slash (so price text stays unambiguous).
    proof fn lemma_symbol_wf()
        ensures
            Self::spec_symbol().len() >= 1,
            !is_amount_char(Self::spec_symbol()[0]),
            forall|i: int|
                0 <= i < Self::spec_symbol().len() ==> #[trigger] Self::spec_symbol()[i] != '/';

    /// The canonical symbol.
    fn as_str() -> (r: &'static str)
        ensures
            r@ == Self::spec_symbol(),
    ;
}

/// United States dollars, symbol `USD`.
#[derive(PartialEq, Eq, PartialOrd, Ord, Debug, Default, Clone, Copy)]
pub struct Usd;

impl Asset for Usd {
    open spec fn spec_symbol() -> Seq<char> {
        seq!['U', 'S', 'D']
    }

    proof fn lemma_symbol_wf() {
        assert(('U' as u32) == 85);
        assert(forall|i: int|
            0 <= i < Self::spec_symbol().len() ==> #[trigger] Self::spec_symbol()[i] != '/') by {
            assert(Self::spec_symbol()[0] == 'U');
            assert(Self::spec_symbol()[1] == 'S');
            assert(Self::spec_symbol()[2] == 'D');
        }
    }

    fn as_str() -> (r: &'static str) {
        proof {
            reveal_strlit("USD");
            assert("USD"@ =~= seq!['U', 'S', 'D']);
        }
        "USD"
    }
}

/// Euros, symbol `EURO`.
#[derive(PartialEq, Eq, PartialOrd, Ord, Debug, Default, Clone, Copy)]
pub struct Euro;

impl Asset for Euro {
    open spec fn spec_symbol() -> Seq<char> {
        seq!['E', 'U', 'R', 'O']
    }

    proof fn lemma_symbol_wf() {
        assert(('E' as u32) == 69);
        assert(forall|i: int|
            0 <= i < Self::spec_symbol().len() ==> #[trigger] Self::spec_symbol()[i] != '/') by {
            assert(Self::spec_symbol()[0] == 'E');
            assert(Self::spec_symbol()[1] == 'U');
            assert(Self::spec_symbol()[2] == 'R');
            assert(Self::spec_symbol()[3] == 'O');
        }
    }

    fn as_str() -> (r: &'static str) {
        proof {
            reveal_strlit("EURO");
            assert("EURO"@ =~= seq!['E', 'U', 'R', 'O']);
        }
        "EURO"
    }
}

/// Bitcoin, symbol `BTC`.
#[derive(PartialEq, Eq, PartialOrd, Ord, Debug, Default, Clone, Copy)]
pub struct Bitcoin;

impl Asset for Bitcoin {
    open spec fn spec_symbol() -> Seq<char> {
        seq!['B', 'T', 'C']
    }

    proof fn lemma_symbol_wf() {
        assert(('B' as u32) == 66);
        assert(forall|i: int|
            0 <= i < Self::spec_symbol().len() ==> #[trigger] Self::spec_symbol()[i] != '/') by {
            assert(Self::spec_symbol()[0] == 'B');
            assert(Self::spec_symbol()[1] == 'T');
            assert(Self::spec_symbol()[2] == 'C');
        }
    }

    fn as_str() -> (r: &'static str) {
        proof {
            reveal_strlit("BTC");
            assert("BTC"@ =~= seq!['B', 'T', 'C']);
        }
        "BTC"
    }
}

/// Is `c` a character that can appear in the numeric part of an amount?
fn amount_char(c: char) -> (r: bool)
    ensures
        r == is_amount_char(c),
{
    let cv = c as u32;
    proof {
        vstd::utf8::char_u32_cast(c, c as u32);
        vstd::utf8::char_u32_cast('.', '.' as u32);
        vstd::utf8::char_u32_cast('-', '-' as u32);
        assert(('.' as u32) == 46);
        assert(('-' as u32) == 45);
    }
    (48 <= cv && cv <= 57) || cv == 46 || cv == 45
}

/// Splits a tagged amount at the start of its currency symbol; fails when
/// no symbol follows the number.
pub fn split_amount_asset<'a>(s: &'a str) -> (r: Result<(&'a str, &'a str), Fault>)
    ensures
        r is Ok <==> find_symbol_start(s@) < s@.len(),
        r is Ok ==> r->Ok_0.0@ == s@.take(find_symbol_start(s@)) && r->Ok_0.1@ == s@.skip(
            find_symbol_start(s@),
        ),
        r is Err ==> r->Err_0 == Fault::ParseError,
{
    let n = s.unicode_len();
    let mut d: usize = 0;
    while d < n && amount_char(s.get_char(d))
        invariant
            n == s@.len(),
            0 <= d <= n,
            forall|j: int| 0 <= j < d ==> is_amount_char(#[trigger] s@[j]),
        decreases n - d,
    {
        d += 1;
    }
    proof {
        lemma_find_symbol_start_at(s@, d as int);
    }
    if d == n {
        Err(Fault::ParseError)
    } else {
        let amount = s.substring_char(0, d);
        let suffix = s.substring_char(d, n);
        proof {
            assert(amount@ =~= s@.take(d as int));
            assert(suffix@ =~= s@.skip(d as int));
        }
        Ok((amount, suffix))
    }
}

/// An amount of currency `T`, zero or more.
#[derive(PartialEq, Eq, PartialOrd, Ord, Debug)]
pub struct UnsignedAsset<T> {
    value: UnsignedDecimal,
    _phantom: PhantomData<T>,
}

// Writing these by hand avoids a needless `Clone` bound on the tag.
impl<T> Clone for UnsignedAsset<T> {
    fn clone(&self) -> (r: Self)
        ensures
            r@ == self@,
    {
        UnsignedAsset { value: self.value, _phantom: PhantomData }
    }
}

impl<T> Copy for UnsignedAsset<T> {

}

impl<T> Default for UnsignedAsset<T> {
    /// The default amount is zero.
    fn default() -> (r: Self)
        ensures
            r@ == 0,
    {
        UnsignedAsset { value: UnsignedDecimal::zero(), _phantom: PhantomData }
    }
}

impl<T> View for UnsignedAsset<T> {
    type V = nat;

    closed spec fn view(&self) -> nat {
        self.value@
    }
}

/// Every unsigned amount fits the machine word it is stored in.
pub broadcast proof fn lemma_unsigned_asset_bound<T>(a: UnsignedAsset<T>)
    ensures
        #[trigger] a@ <= u64::MAX,
{
    crate::unsigned_decimal::lemma_unsigned_decimal_bound(a.value);
}

impl<T> UnsignedAsset<T> {
    /// Tags `value` with the currency of the given marker.
    pub fn new(_tag: T, value: UnsignedDecimal) -> (r: Self)
        ensures
            r@ == value@,
    {
        UnsignedAsset { value, _phantom: PhantomData }
    }

    /// Tags `value` without naming the marker.
    pub(crate) fn new_no_hints(value: UnsignedDecimal) -> (r: Self)
        ensures
            r@ == value@,
    {
        UnsignedAsset { value, _phantom: PhantomData }
    }

    /// A zero amount of the given currency.
    pub fn zero(_tag: T) -> (r: Self)
        ensures
            r@ == 0,
    {
        UnsignedAsset { value: UnsignedDecimal::zero(), _phantom: PhantomData }
    }

    /// The amount without its currency tag.
    pub fn into_decimal(self) -> (r: UnsignedDecimal)
        ensures
            r@ == self@,
    {
        self.value
    }

    /// Exact sum of two amounts of the same currency.
    pub fn add(self, rhs: Self) -> (r: Self)
        requires
            self@ + rhs@ <= u64::MAX,
        ensures
            r@ == self@ + rhs@,
    {
        UnsignedAsset { value: self.value.add(rhs.value), _phantom: PhantomData }
    }

    /// Exact sum, in place.
    pub fn add_assign(&mut self, rhs: Self)
        requires
            old(self)@ + rhs@ <= u64::MAX,
        ensures
            final(self)@ == old(self)@ + rhs@,
    {
        self.value.add_assign(rhs.value);
    }

    /// Exact difference; refuses to go below zero.
    pub fn checked_sub(&self, rhs: Self) -> (r: Result<Self, Fault>)
        ensures
            r is Ok <==> rhs@ <= self@,
            r is Ok ==> r->Ok_0@ == self@ - rhs@,
            r is Err ==> r->Err_0 == Fault::Underflow,
    {
        match self.value.checked_sub(rhs.value) {
            Ok(value) => Ok(UnsignedAsset { value, _phantom: PhantomData }),
            Err(e) => Err(e),
        }
    }

    /// Exact difference in place; on failure the amount is unchanged.
    pub fn checked_sub_assign(&mut self, rhs: Self) -> (r: Result<(), Fault>)
        ensures
            r is Ok <==> rhs@ <= old(self)@,
            r is Ok ==> final(self)@ == old(self)@ - rhs@,
            r is Err ==> final(self)@ == old(self)@ && r->Err_0 == Fault::Underflow,
    {
        self.value.checked_sub_assign(rhs.value)
    }
}

impl<T: Asset> UnsignedAsset<T> {
    /// Writes the amount as `<decimal><SYMBOL>`.
    pub fn format_text(&self) -> (r: String)
        ensures
            r@ == unsigned_text_of(self@) + T::spec_symbol(),
    {
        let mut out = self.value.format_text();
        out.append(T::as_str());
        out
    }

    /// Reads `<decimal><SYMBOL>`, requiring exactly this currency's
    /// symbol.
    pub fn parse_text(s: &str) -> (r: Result<Self, Fault>)
        ensures
            r is Ok <==> asset_text_ok::<T>(s@),
            r is Ok ==> r->Ok_0@ == asset_text_val(s@),
            r is Err ==> r->Err_0 == asset_parse_err::<T>(s@),
    {
        let (amount, suffix) = match split_amount_asset(s) {
            Ok(p) => p,
            Err(e) => {
                proof {
                    lemma_find_symbol_start_bounds(s@);
                }
                return Err(e);
            },
        };
        if !str_eq(suffix, T::as_str()) {
            return Err(Fault::AssetMismatch);
        }
        match UnsignedDecimal::parse_text(amount) {
            Ok(value) => Ok(UnsignedAsset { value, _phantom: PhantomData }),
            Err(e) => Err(e),
        }
    }
}

/// A strictly positive amount of currency `T`.
#[derive(PartialEq, Eq, PartialOrd, Ord, Debug)]
pub struct PositiveAsset<T> {
    value: PositiveDecimal,
    _phantom: PhantomData<T>,
}

// Writing these by hand avoids a needless `Clone` bound on the tag.
impl<T> Clone for PositiveAsset<T> {
    fn clone(&self) -> (r: Self)
        ensures
            r@ == self@,
            self.wf() ==> r.wf(),
    {
        PositiveAsset { value: self.value, _phantom: PhantomData }
    }
}

impl<T> Copy for PositiveAsset<T> {

}

impl<T> View for PositiveAsset<T> {
    type V = nat;

    closed spec fn view(&self) -> nat {
        self.value@
    }
}

impl<T> PositiveAsset<T> {
    /// The refinement invariant, inherited from [`PositiveDecimal`].
    pub open spec fn wf(&self) -> bool {
        0 < self@ <= u64::MAX
    }

    /// Tags a checked positive value with the given currency.
    pub fn new(_tag: T, value: PositiveDecimal) -> (r: PositiveAsset<T>)
        requires
            value.wf(),
        ensures
            r@ == value@,
            r.wf(),
    {
        PositiveAsset { value, _phantom: PhantomData }
    }

    /// Builds an amount from decimal text fixed at compile time; the text
    /// must spell a representable positive value.
    pub fn from_static(_tag: T, value: &'static str) -> (r: PositiveAsset<T>)
        requires
            unsigned_text_ok(value@),
            unsigned_text_val(value@) > 0,
        ensures
            r@ == unsigned_text_val(value@),
            r.wf(),
    {
        match PositiveDecimal::parse_text(value) {
            Ok(v) => PositiveAsset { value: v, _phantom: PhantomData },
            Err(_) => vstd::pervasive::unreached(),
        }
    }

    /// The amount without its currency tag.
    pub(crate) fn get_value(&self) -> (r: PositiveDecimal)
        ensures
            r@ == self@,
    {
        self.value
    }

    /// Weakens the refinement: every positive amount is also an unsigned
    /// amount.
    pub fn into_unsigned(&self) -> (r: UnsignedAsset<T>)
        ensures
            r@ == self@,
    {
        UnsignedAsset::new_no_hints(self.value.get_unsigned())
    }

    /// Exact difference; fails whenever the result would not be strictly
    /// positive.
    pub fn checked_sub(&self, rhs: PositiveAsset<T>) -> (r: Result<Self, Fault>)
        ensures
            r is Ok <==> rhs@ < self@,
            r is Ok ==> r->Ok_0@ == self@ - rhs@ && r->Ok_0.wf(),
            r is Err ==> r->Err_0 == Fault::NonPositiveResult,
    {
        match self.value.checked_sub(rhs.value) {
            Ok(value) => Ok(PositiveAsset { value, _phantom: PhantomData }),
            Err(e) => Err(e),
        }
    }

    /// Exact sum of two positive amounts; the sum stays positive.
    pub fn add(self, rhs: Self) -> (r: Self)
        requires
            self.wf(),
            rhs.wf(),
            self@ + rhs@ <= u64::MAX,
        ensures
            r@ == self@ + rhs@,
            r.wf(),
    {
        PositiveAsset { value: self.value.add(rhs.value), _phantom: PhantomData }
    }

    /// Exact sum of two positive amounts, in place; the sum stays
    /// positive.
    pub fn add_assign(&mut self, rhs: Self)
        requires
            old(self).wf(),
            rhs.wf(),
            old(self)@ + rhs@ <= u64::MAX,
        ensures
            final(self)@ == old(self)@ + rhs@,
            final(self).wf(),
    {
        self.value.add_assign(rhs.value);
    }
}

impl<T: Asset> PositiveAsset<T> {
    /// Writes the amount as `<decimal><SYMBOL>`.
    pub fn format_text(&self) -> (r: String)
        ensures
            r@ == unsigned_text_of(self@) + T::spec_symbol(),
    {
        let mut out = self.value.format_text();
        out.append(T::as_str());
        out
    }

    /// Reads `<decimal><SYMBOL>`, requiring this currency's symbol and a
    /// positive value.
    pub fn parse_text(s: &str) -> (r: Result<Self, Fault>)
        ensures
            r is Ok <==> asset_text_ok::<T>(s@) && asset_text_val(s@) != 0,
            r is Ok ==> r->Ok_0@ == asset_text_val(s@) && r->Ok_0.wf(),
            r is Err ==> r->Err_0 == (if asset_text_ok::<T>(s@) {
                Fault::InvalidRefinement
            } else {
                asset_parse_err::<T>(s@)
            }),
    {
        let (amount, suffix) = match split_amount_asset(s) {
            Ok(p) => p,
            Err(e) => {
                proof {
                    lemma_find_symbol_start_bounds(s@);
                }
                return Err(e);
            },
        };
        if !str_eq(suffix, T::as_str()) {
            return Err(Fault::AssetMismatch);
        }
        match PositiveDecimal::parse_text(amount) {
            Ok(value) => Ok(PositiveAsset { value, _phantom: PhantomData }),
            Err(e) => Err(e),
        }
    }
}

} // verus!
