use swap_ledger::{
    Euro, Fault, Ledger, Owner, PositiveAsset, ServerRequest, ServerResponse, UnsignedAsset, Usd,
};

fn fresh_ledger() -> Ledger {
    Ledger::new(
        PositiveAsset::from_static(Usd, "103000"),
        PositiveAsset::from_static(Euro, "100000"),
    )
}

fn usd(s: &str) -> UnsignedAsset<Usd> {
    UnsignedAsset::<Usd>::parse_text(s).unwrap()
}

fn euro(s: &str) -> UnsignedAsset<Euro> {
    UnsignedAsset::<Euro>::parse_text(s).unwrap()
}

#[test]
fn balances_start_at_zero() {
    let ledger = fresh_ledger();
    let owner = Owner("nobody".to_owned());
    let (u, e) = ledger.get_balance(&owner);
    assert_eq!(u.format_text(), "0USD");
    assert_eq!(e.format_text(), "0EURO");
}

#[test]
fn mint_accumulates() {
    let mut ledger = fresh_ledger();
    let alice = Owner("alice".to_owned());
    ledger.mint_funds(&alice, usd("100USD"), euro("0EURO"));
    ledger.mint_funds(&alice, usd("25.5USD"), euro("3EURO"));
    let (u, e) = ledger.get_balance(&alice);
    assert_eq!(u.format_text(), "125.5USD");
    assert_eq!(e.format_text(), "3EURO");
}

#[test]
fn amm_sell_dollars_scenario() {
    // pools start at 103000 USD and 100000 EURO; selling 1000 USD moves
    // the dollar reserve to 104000 and floors the euro reserve to keep K
    let mut ledger = fresh_ledger();
    let trader = Owner("trader".to_owned());
    ledger.mint_funds(&trader, usd("1000USD"), euro("0EURO"));

    let resp = ledger
        .sell_dollars(&trader, PositiveAsset::from_static(Usd, "1000"))
        .unwrap();
    // floor(103000 * 100000 / 104000) at six digits = 99038.461538
    assert_eq!(resp.euros_bought.format_text(), "961.538462EURO");

    let (pool_usd, pool_euro) = ledger.pools();
    assert_eq!(pool_usd.format_text(), "104000USD");
    assert_eq!(pool_euro.format_text(), "99038.461538EURO");

    // the trader paid exactly 1000 USD and received exactly the euros bought
    let (u, e) = ledger.get_balance(&trader);
    assert_eq!(u.format_text(), "0USD");
    assert_eq!(e.format_text(), "961.538462EURO");
}

#[test]
fn sell_euros_mirrors() {
    let mut ledger = fresh_ledger();
    let trader = Owner("trader".to_owned());
    ledger.mint_funds(&trader, usd("0USD"), euro("1000EURO"));

    let resp = ledger
        .sell_euros(&trader, PositiveAsset::from_static(Euro, "1000"))
        .unwrap();
    // K = 103000 * 100000; new euro pool 101000; floor(K / 101000) = 101980.198019
    assert_eq!(resp.dollars_bought.format_text(), "1019.801981USD");

    let (pool_usd, pool_euro) = ledger.pools();
    assert_eq!(pool_usd.format_text(), "101980.198019USD");
    assert_eq!(pool_euro.format_text(), "101000EURO");

    let (u, e) = ledger.get_balance(&trader);
    assert_eq!(u.format_text(), "1019.801981USD");
    assert_eq!(e.format_text(), "0EURO");
}

#[test]
fn insufficient_funds_changes_nothing() {
    let mut ledger = fresh_ledger();
    let trader = Owner("trader".to_owned());
    ledger.mint_funds(&trader, usd("5USD"), euro("7EURO"));

    let err = ledger
        .sell_dollars(&trader, PositiveAsset::from_static(Usd, "10"))
        .unwrap_err();
    assert_eq!(err, Fault::InsufficientFunds);

    // both the trader's balances and the pool reserves are untouched
    let (u, e) = ledger.get_balance(&trader);
    assert_eq!(u.format_text(), "5USD");
    assert_eq!(e.format_text(), "7EURO");
    let (pool_usd, pool_euro) = ledger.pools();
    assert_eq!(pool_usd.format_text(), "103000USD");
    assert_eq!(pool_euro.format_text(), "100000EURO");

    // an unknown trader is refused the same way
    let ghost_trader = Owner("unknown".to_owned());
    let err = ledger
        .sell_euros(&ghost_trader, PositiveAsset::from_static(Euro, "1"))
        .unwrap_err();
    assert_eq!(err, Fault::InsufficientFunds);
}

#[test]
fn pool_invariant_violation_changes_nothing() {
    // pools so small that K floors to zero: the swap is refused as an
    // integrity failure and the ledger is exactly as before
    let mut ledger = Ledger::new(
        PositiveAsset::from_static(Usd, "0.00001"),
        PositiveAsset::from_static(Euro, "0.00001"),
    );
    let trader = Owner("trader".to_owned());
    ledger.mint_funds(&trader, usd("1USD"), euro("0EURO"));
    let err = ledger
        .sell_dollars(&trader, PositiveAsset::from_static(Usd, "0.00001"))
        .unwrap_err();
    assert_eq!(err, Fault::PoolInvariantViolation);
    let (u, _) = ledger.get_balance(&trader);
    assert_eq!(u.format_text(), "1USD");
    let (pool_usd, pool_euro) = ledger.pools();
    assert_eq!(pool_usd.format_text(), "0.00001USD");
    assert_eq!(pool_euro.format_text(), "0.00001EURO");
}

#[test]
fn debits_check_the_balance() {
    let mut ledger = fresh_ledger();
    let alice = Owner("alice".to_owned());
    ledger.mint_funds(&alice, usd("10USD"), euro("20EURO"));
    ledger.debit_usd(&alice, usd("4USD")).unwrap();
    ledger.debit_euro(&alice, euro("20EURO")).unwrap();
    assert_eq!(ledger.debit_usd(&alice, usd("7USD")).unwrap_err(), Fault::InsufficientFunds);
    let (u, e) = ledger.get_balance(&alice);
    assert_eq!(u.format_text(), "6USD");
    assert_eq!(e.format_text(), "0EURO");
}

#[test]
fn status_reports_totals_and_prices() {
    let mut ledger = fresh_ledger();
    let alice = Owner("alice".to_owned());
    let bob = Owner("bob".to_owned());
    ledger.mint_funds(&alice, usd("500USD"), euro("1EURO"));
    ledger.mint_funds(&bob, usd("500USD"), euro("2EURO"));
    assert!(ledger.status_bounds_ok());
    let status = ledger.status().unwrap();
    assert_eq!(status.total_usd.format_text(), "104000USD");
    assert_eq!(status.total_euro.format_text(), "100003EURO");
    // price of one USD: 100000 / 103000 euros, floored at six digits
    assert_eq!(status.price_usd.format_text(), "0.970873 EURO/USD");
    assert_eq!(status.price_euro.format_text(), "1.03 USD/EURO");
}

#[test]
fn list_owners_pages_in_order() {
    let mut ledger = fresh_ledger();
    // insert out of order; names sort lexicographically
    let names = [
        "w05", "w17", "w03", "w21", "w08", "w00", "w13", "w24", "w11", "w02", "w19", "w06", "w15",
        "w22", "w01", "w09", "w18", "w04", "w12", "w23", "w07", "w16", "w10", "w20", "w14",
    ];
    for n in names {
        ledger.mint_funds(&Owner((*n).to_owned()), usd("1USD"), euro("1EURO"));
    }

    // chain pages by passing the last owner seen as the next cursor
    let mut seen: Vec<String> = Vec::new();
    let mut cursor: Option<Owner> = None;
    loop {
        let page = ledger.list_owners(cursor.take());
        cursor = page.next_cursor();
        if cursor.is_none() {
            break;
        }
        assert!(page.owners.len() <= 10);
        for o in page.owners {
            seen.push(o.0.clone());
        }
    }

    // every owner appears exactly once, in ascending order
    let mut expected: Vec<String> = names.iter().map(|n| (*n).to_owned()).collect();
    expected.sort();
    assert_eq!(seen, expected);
}

#[test]
fn dispatch_covers_every_operation() {
    let mut ledger = fresh_ledger();
    let alice = Owner("alice".to_owned());

    let mint = ServerRequest::MintFunds {
        recipient: Owner("alice".to_owned()),
        usd_amount: usd("50USD"),
        euro_amount: euro("0EURO"),
    };
    assert!(ledger.dispatch_bounds_ok(&mint));
    match ledger.dispatch(mint).unwrap() {
        ServerResponse::MintFunds(_) => {},
        _ => panic!("wrong response variant"),
    }

    let balance = ServerRequest::Balance { owner: Owner("alice".to_owned()) };
    assert!(ledger.dispatch_bounds_ok(&balance));
    match ledger.dispatch(balance).unwrap() {
        ServerResponse::Balance(b) => assert_eq!(b.usd.format_text(), "50USD"),
        _ => panic!("wrong response variant"),
    }

    let sell = ServerRequest::SellDollars {
        trader: Owner("alice".to_owned()),
        dollars: PositiveAsset::from_static(Usd, "50"),
    };
    assert!(ledger.dispatch_bounds_ok(&sell));
    match ledger.dispatch(sell).unwrap() {
        ServerResponse::SellDollars(resp) => {
            // floor(103000 * 100000 / 103050) = 99951.479864
            assert_eq!(resp.euros_bought.format_text(), "48.520136EURO");
        },
        _ => panic!("wrong response variant"),
    }

    let sell_back = ServerRequest::SellEuros {
        trader: Owner("alice".to_owned()),
        euros: PositiveAsset::from_static(Euro, "48.520136"),
    };
    assert!(ledger.dispatch_bounds_ok(&sell_back));
    match ledger.dispatch(sell_back).unwrap() {
        ServerResponse::SellEuros(_) => {},
        _ => panic!("wrong response variant"),
    }

    let status = ServerRequest::Status {};
    assert!(ledger.dispatch_bounds_ok(&status));
    match ledger.dispatch(status).unwrap() {
        ServerResponse::Status(_) => {},
        _ => panic!("wrong response variant"),
    }

    let list = ServerRequest::ListOwners { start_after: None };
    assert!(ledger.dispatch_bounds_ok(&list));
    match ledger.dispatch(list).unwrap() {
        ServerResponse::ListOwners(resp) => {
            assert_eq!(resp.owners.len(), 1);
            assert_eq!(resp.owners[0], alice);
        },
        _ => panic!("wrong response variant"),
    }
}

#[test]
fn swap_sequences_are_deterministic() {
    // running the same operations in the same order from the same state
    // always ends in the same ledger state
    let run = || {
        let mut ledger = fresh_ledger();
        let a = Owner("a".to_owned());
        let b = Owner("b".to_owned());
        ledger.mint_funds(&a, usd("1000USD"), euro("0EURO"));
        ledger.mint_funds(&b, usd("0USD"), euro("500EURO"));
        ledger.sell_dollars(&a, PositiveAsset::from_static(Usd, "400")).unwrap();
        ledger.sell_euros(&b, PositiveAsset::from_static(Euro, "250")).unwrap();
        ledger.sell_dollars(&a, PositiveAsset::from_static(Usd, "600")).unwrap();
        let (pu, pe) = ledger.pools();
        let (au, ae) = ledger.get_balance(&a);
        let (bu, be) = ledger.get_balance(&b);
        vec![
            pu.format_text(),
            pe.format_text(),
            au.format_text(),
            ae.format_text(),
            bu.format_text(),
            be.format_text(),
        ]
    };
    assert_eq!(run(), run());
}
