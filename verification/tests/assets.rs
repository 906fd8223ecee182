use swap_ledger::{
    split_amount_asset, Bitcoin, Euro, Fault, PositiveAsset, Price, UnsignedAsset, UnsignedDecimal,
    Usd,
};

#[test]
fn split_amount() {
    assert_eq!(split_amount_asset("5USD").unwrap(), ("5", "USD"));
    assert_eq!(split_amount_asset("5.0USD").unwrap(), ("5.0", "USD"));
    split_amount_asset("25").unwrap_err();
    split_amount_asset("25.0").unwrap_err();
    split_amount_asset("25.").unwrap_err();
}

#[test]
fn positive_asset_render_and_parse() {
    let usd = PositiveAsset::from_static(Usd, "123.456");
    let s = usd.format_text();
    assert_eq!(s, "123.456USD");
    let usd2 = PositiveAsset::<Usd>::parse_text(&s).unwrap();
    assert_eq!(usd, usd2);
}

#[test]
fn invalid_asset_values() {
    PositiveAsset::<Usd>::parse_text("0.1USD").unwrap();
    PositiveAsset::<Usd>::parse_text("0.aUSD").unwrap_err();
    PositiveAsset::<Usd>::parse_text("0USD").unwrap_err();
}

#[test]
fn parse_negative_unsigned_asset() {
    UnsignedAsset::<Usd>::parse_text("-5000USD").unwrap_err();
    assert_eq!(
        UnsignedAsset::<Usd>::parse_text("5000USD").unwrap(),
        UnsignedAsset::new(Usd, UnsignedDecimal::parse_text("5000").unwrap())
    )
}

#[test]
fn asset_error_kinds() {
    // a dollar amount with a euro symbol is a mismatch, not a parse error
    assert_eq!(UnsignedAsset::<Usd>::parse_text("5EURO").unwrap_err(), Fault::AssetMismatch);
    // no symbol at all cannot be split
    assert_eq!(UnsignedAsset::<Usd>::parse_text("5").unwrap_err(), Fault::ParseError);
    // a broken number with the right symbol is a parse error
    assert_eq!(UnsignedAsset::<Usd>::parse_text("5.USD").unwrap_err(), Fault::ParseError);
    // a zero positive amount is an invalid refinement
    assert_eq!(PositiveAsset::<Euro>::parse_text("0EURO").unwrap_err(), Fault::InvalidRefinement);
}

#[test]
fn unsigned_asset_arithmetic() {
    let a = UnsignedAsset::<Usd>::parse_text("2.2USD").unwrap();
    let b = UnsignedAsset::<Usd>::parse_text("3.5USD").unwrap();
    assert_eq!(a.add(b).format_text(), "5.7USD");
    assert_eq!(b.checked_sub(a).unwrap().format_text(), "1.3USD");
    assert_eq!(a.checked_sub(b).unwrap_err(), Fault::Underflow);
    assert_eq!(UnsignedAsset::zero(Usd).format_text(), "0USD");
}

#[test]
fn positive_asset_conversions() {
    let p = PositiveAsset::from_static(Euro, "7.25");
    let u = p.into_unsigned();
    assert_eq!(u.format_text(), "7.25EURO");
    assert_eq!(u.into_decimal(), UnsignedDecimal::parse_text("7.25").unwrap());
    assert_eq!(p.checked_sub(PositiveAsset::from_static(Euro, "7.25")).unwrap_err(),
        Fault::NonPositiveResult);
}

#[test]
fn price_render_and_parse() {
    let usd = PositiveAsset::from_static(Usd, "11000");
    let euro = PositiveAsset::from_static(Euro, "10000");
    let price = Price::from_asset_ratios(euro, usd).unwrap();
    assert_eq!(price.format_text(), "1.1 USD/EURO");
    let price2 = Price::<Euro, Usd>::parse_text(&price.format_text()).unwrap();
    assert_eq!(price, price2);

    let btc = PositiveAsset::from_static(Bitcoin, "0.5");
    let euro = PositiveAsset::from_static(Euro, "55000");
    let price = Price::from_asset_ratios(btc, euro).unwrap();
    assert_eq!(price.format_text(), "110000 EURO/BTC");
}

#[test]
fn price_parse_error_kinds() {
    // both symbols must match the expected pair
    assert_eq!(
        Price::<Usd, Euro>::parse_text("1.1 USD/EURO").unwrap_err(),
        Fault::AssetMismatch
    );
    assert_eq!(
        Price::<Euro, Usd>::parse_text("1.1 USD/USD").unwrap_err(),
        Fault::AssetMismatch
    );
    // a missing slash or rate is a parse error
    assert_eq!(Price::<Euro, Usd>::parse_text("1.1 USDEURO").unwrap_err(), Fault::ParseError);
    assert_eq!(Price::<Euro, Usd>::parse_text("x USD/EURO").unwrap_err(), Fault::ParseError);
    // a zero rate is an invalid refinement
    assert_eq!(Price::<Euro, Usd>::parse_text("0 USD/EURO").unwrap_err(), Fault::InvalidRefinement);
}

#[test]
fn degenerate_ratio_is_refused() {
    // the quote is so small against the base that the rate floors to zero
    let base = PositiveAsset::from_static(Usd, "10000000");
    let quote = PositiveAsset::from_static(Euro, "0.000001");
    assert_eq!(Price::from_asset_ratios(base, quote).unwrap_err(), Fault::DegenerateRatio);
}
