//! Exchange rates: how many quote units one base unit is worth, encoded
//! as `<rate> <QUOTE-SYMBOL>/<BASE-SYMBOL>`.

use core::marker::PhantomData;
use vstd::prelude::*;

use crate::asset::{
    asset_text_val, find_symbol_start, lemma_find_symbol_start_bounds, split_amount_asset, Asset,
    PositiveAsset,
};
use crate::error::Fault;
use crate::positive_decimal::PositiveDecimal;
use crate::text::str_eq;
use crate::unsigned_decimal::{scaled_div, unsigned_text_of, unsigned_text_ok, unsigned_text_val};

verus! {

/// Index of the first `/` in `s`, or `s.len()` if there is none.
pub open spec fn find_slash(s: Seq<char>) -> int
    decreases s.len(),
{
    if s.len() == 0 {
        0
    } else if s[0] == '/' {
        0
    } else {
        1 + find_slash(s.drop_first())
    }
}

/// `find_slash` points inside the text or just past its end.
pub proof fn lemma_find_slash_bounds(s: Seq<char>)
    ensures
        0 <= find_slash(s) <= s.len(),
    decreases s.len(),
{
    if s.len() > 0 && s[0] != '/' {
        lemma_find_slash_bounds(s.drop_first());
    }
}

/// If no `/` occurs before position `d`, and `d` is the end or holds a
/// `/`, then `d` is where `find_slash` points.
pub proof fn lemma_find_slash_at(s: Seq<char>, d: int)
    requires
        0 <= d <= s.len(),
        forall|j: int| 0 <= j < d ==> s[j] != '/',
        d < s.len() ==> s[d] == '/',
    ensures
        find_slash(s) == d,
    decreases s.len(),
{
    if s.len() > 0 && s[0] != '/' {
        lemma_find_slash_at(s.drop_first(), d - 1);
    }
}

/// The canonical text for a rate of `v` quote units per base unit.
pub open spec fn price_text_of<Base: Asset, Quote: Asset>(v: nat) -> Seq<char> {
    unsigned_text_of(v) + seq![' '] + Quote::spec_symbol() + seq!['/'] + Base::spec_symbol()
}

/// Does `s` read as a positive rate, a space, the quote symbol, a slash,
/// and the base symbol?
pub open spec fn price_text_ok<Base: Asset, Quote: Asset>(s: Seq<char>) -> bool {
    let d = find_symbol_start(s);
    let rest = s.skip(d);
    &&& d < s.len()
    &&& unsigned_text_ok(s.take(d))
    &&& unsigned_text_val(s.take(d)) > 0
    &&& rest[0] == ' '
    &&& {
        let tail = rest.skip(1);
        let sl = find_slash(tail);
        &&& sl < tail.len()
        &&& tail.take(sl) == Quote::spec_symbol()
        &&& tail.skip(sl + 1) == Base::spec_symbol()
    }
}

/// Which fault malformed price text produces, checked in the order the
/// parser works: the rate first, then the shape, then the two symbols.
pub open spec fn price_parse_err<Base: Asset, Quote: Asset>(s: Seq<char>) -> Fault {
    let d = find_symbol_start(s);
    let rest = s.skip(d);
    if d == s.len() {
        Fault::ParseError
    } else if !unsigned_text_ok(s.take(d)) {
        Fault::ParseError
    } else if unsigned_text_val(s.take(d)) == 0 {
        Fault::InvalidRefinement
    } else if rest[0] != ' ' {
        Fault::ParseError
    } else if find_slash(rest.skip(1)) == rest.skip(1).len() {
        Fault::ParseError
    } else if rest.skip(1).take(find_slash(rest.skip(1))) != Quote::spec_symbol() {
        Fault::AssetMismatch
    } else {
        Fault::AssetMismatch
    }
}

/// Round trip for prices: the canonical text of any representable
/// positive rate parses back, under the same currency pair, to exactly
/// that rate.
pub proof fn lemma_price_text_round_trip<Base: Asset, Quote: Asset>(v: nat)
    requires
        1 <= v <= u64::MAX,
    ensures
        price_text_ok::<Base, Quote>(price_text_of::<Base, Quote>(v)),
        asset_text_val(price_text_of::<Base, Quote>(v)) == v,
{
    crate::unsigned_decimal::lemma_text_round_trip(v);
    crate::asset::lemma_unsigned_text_amount_chars(v);
    Base::lemma_symbol_wf();
    Quote::lemma_symbol_wf();
    let u = unsigned_text_of(v);
    let text = price_text_of::<Base, Quote>(v);
    let ul = u.len() as int;
    assert(text == u + seq![' '] + Quote::spec_symbol() + seq!['/'] + Base::spec_symbol());
    assert(forall|j: int| 0 <= j < ul ==> #[trigger] text[j] == u[j]);
    assert(text[ul] == ' ');
    assert(!crate::asset::is_amount_char(' ')) by {
        assert((' ' as u32) == 32);
    }
    crate::asset::lemma_find_symbol_start_at(text, ul);
    assert(text.take(ul) =~= u);
    let rest = text.skip(ul);
    assert(rest[0] == ' ');
    let tail = rest.skip(1);
    assert(tail =~= Quote::spec_symbol() + seq!['/'] + Base::spec_symbol());
    let ql = Quote::spec_symbol().len() as int;
    assert(forall|j: int| 0 <= j < ql ==> #[trigger] tail[j] == Quote::spec_symbol()[j]);
    assert(tail[ql] == '/');
    lemma_find_slash_at(tail, ql);
    assert(tail.take(ql) =~= Quote::spec_symbol());
    assert(tail.skip(ql + 1) =~= Base::spec_symbol());
}

/// The price of one base unit, in quote units: a positive rate branded
/// with both currencies.
#[derive(PartialEq, Eq, Debug)]
pub struct Price<Base, Quote> {
    price: PositiveDecimal,
    _base: PhantomData<Base>,
    _quote: PhantomData<Quote>,
}

// Writing these by hand avoids needless `Clone` bounds on the tags.
impl<Base, Quote> Clone for Price<Base, Quote> {
    fn clone(&self) -> (r: Self)
        ensures
            r@ == self@,
            self.wf() ==> r.wf(),
    {
        Price { price: self.price, _base: PhantomData, _quote: PhantomData }
    }
}

impl<Base, Quote> Copy for Price<Base, Quote> {

}

impl<Base, Quote> View for Price<Base, Quote> {
    type V = nat;

    closed spec fn view(&self) -> nat {
        self.price@
    }
}

impl<Base, Quote> Price<Base, Quote> {
    /// The refinement invariant: a rate is strictly positive.
    pub open spec fn wf(&self) -> bool {
        0 < self@ <= u64::MAX
    }

    /// Derives the price from a pair of positive holdings: the quote
    /// amount divided by the base amount. A ratio so small that it floors
    /// to zero is refused as degenerate.
    pub fn from_asset_ratios(base: PositiveAsset<Base>, quote: PositiveAsset<Quote>) -> (r: Result<
        Price<Base, Quote>,
        Fault,
    >)
        requires
            base.wf(),
            quote.wf(),
            scaled_div(quote@, base@) <= u64::MAX,
        ensures
            r is Ok <==> scaled_div(quote@, base@) > 0,
            r is Ok ==> r->Ok_0@ == scaled_div(quote@, base@) && r->Ok_0.wf(),
            r is Err ==> r->Err_0 == Fault::DegenerateRatio,
    {
        let rate = quote.get_value().div(base.get_value());
        match PositiveDecimal::new(rate) {
            Ok(price) => Ok(Price { price, _base: PhantomData, _quote: PhantomData }),
            Err(_) => Err(Fault::DegenerateRatio),
        }
    }
}

impl<Base: Asset, Quote: Asset> Price<Base, Quote> {
    /// Writes the price as `<rate> <QUOTE-SYMBOL>/<BASE-SYMBOL>`.
    pub fn format_text(&self) -> (r: String)
        ensures
            r@ == price_text_of::<Base, Quote>(self@),
    {
        proof {
            reveal_strlit(" ");
            reveal_strlit("/");
        }
        let mut out = self.price.format_text();
        out.append(" ");
        out.append(Quote::as_str());
        out.append("/");
        out.append(Base::as_str());
        proof {
            assert(out@ =~= price_text_of::<Base, Quote>(self@));
        }
        out
    }

    /// Reads `<rate> <QUOTE-SYMBOL>/<BASE-SYMBOL>`, requiring a positive
    /// rate and exactly the two expected symbols.
    pub fn parse_text(s: &str) -> (r: Result<Self, Fault>)
        ensures
            r is Ok <==> price_text_ok::<Base, Quote>(s@),
            r is Ok ==> r->Ok_0@ == asset_text_val(s@) && r->Ok_0.wf(),
            r is Err ==> r->Err_0 == price_parse_err::<Base, Quote>(s@),
    {
        let (rate_txt, rest) = match split_amount_asset(s) {
            Ok(p) => p,
            Err(e) => {
                proof {
                    lemma_find_symbol_start_bounds(s@);
                }
                return Err(e);
            },
        };
        let price = match PositiveDecimal::parse_text(rate_txt) {
            Ok(p) => p,
            Err(e) => {
                return Err(e);
            },
        };
        let rl = rest.unicode_len();
        proof {
            lemma_find_symbol_start_bounds(s@);
            assert(rest@.len() >= 1);
        }
        if rest.get_char(0) != ' ' {
            return Err(Fault::ParseError);
        }
        let tail = rest.substring_char(1, rl);
        proof {
            assert(tail@ =~= rest@.skip(1));
        }
        let tl = rl - 1;
        let mut sl: usize = 0;
        while sl < tl && tail.get_char(sl) != '/'
            invariant
                tl == tail@.len(),
                0 <= sl <= tl,
                forall|j: int| 0 <= j < sl ==> tail@[j] != '/',
            decreases tl - sl,
        {
            sl += 1;
        }
        proof {
            lemma_find_slash_at(tail@, sl as int);
        }
        if sl == tl {
            return Err(Fault::ParseError);
        }
        let quote_part = tail.substring_char(0, sl);
        let base_part = tail.substring_char(sl + 1, tl);
        proof {
            assert(quote_part@ =~= tail@.take(sl as int));
            assert(base_part@ =~= tail@.skip(sl + 1));
        }
        if !str_eq(quote_part, Quote::as_str()) {
            return Err(Fault::AssetMismatch);
        }
        if !str_eq(base_part, Base::as_str()) {
            return Err(Fault::AssetMismatch);
        }
        Ok(Price { price, _base: PhantomData, _quote: PhantomData })
    }
}

} // verus!
