//! The wire-facing data model: account owners, the closed set of
//! operations the ledger answers, and one response shape per operation.

use vstd::prelude::*;

use crate::asset::{Euro, PositiveAsset, UnsignedAsset, Usd};
use crate::price::Price;
use crate::unsigned_decimal::UnsignedDecimal;

verus! {

/// Name of an account owner: an opaque, totally ordered identifier.
#[derive(PartialEq, Eq, PartialOrd, Ord, Hash, Debug)]
pub struct Owner(pub String);

impl View for Owner {
    type V = Seq<char>;

    open spec fn view(&self) -> Seq<char> {
        self.0@
    }
}

impl Clone for Owner {
    /// Cloning keeps the name.
    fn clone(&self) -> (r: Self)
        ensures
            r@ == self@,
    {
        Owner(self.0.clone())
    }
}

impl Owner {
    /// The name as text.
    pub fn as_str(&self) -> (r: &str)
        ensures
            r@ == self@,
    {
        self.0.as_str()
    }
}

/// Some amount of an asset, tagged at run time rather than in the type.
pub struct Amount<A> {
    pub amount: UnsignedDecimal,
    pub asset: A,
}

/// The operations the ledger answers, one variant per operation.
pub enum ServerRequest {
    /// Get the overall system status.
    Status {},
    /// Get the balance for the given owner.
    Balance { owner: Owner },
    /// Create new funds for a user.
    MintFunds {
        recipient: Owner,
        usd_amount: UnsignedAsset<Usd>,
        euro_amount: UnsignedAsset<Euro>,
    },
    /// Convert dollars into euros.
    SellDollars { trader: Owner, dollars: PositiveAsset<Usd> },
    /// Convert euros into dollars.
    SellEuros { trader: Owner, euros: PositiveAsset<Euro> },
    /// Enumerate owners of dollars and euros, starting after the given
    /// owner if any.
    ListOwners { start_after: Option<Owner> },
}

/// Totals over every account plus the pools, and the two pool prices.
#[derive(Debug, Clone)]
pub struct StatusResp {
    /// Total amount of USD in both the pool and held by all users.
    pub total_usd: UnsignedAsset<Usd>,
    /// Total amount of EURO in both the pool and held by all users.
    pub total_euro: UnsignedAsset<Euro>,
    /// Price of a single USD in terms of EURO.
    pub price_usd: Price<Usd, Euro>,
    /// Price of a single EURO in terms of USD.
    pub price_euro: Price<Euro, Usd>,
}

/// One owner's balances; zero for an unknown owner.
#[derive(Debug, Clone)]
pub struct BalanceResp {
    pub usd: UnsignedAsset<Usd>,
    pub euro: UnsignedAsset<Euro>,
}

/// Minting always succeeds and reports nothing.
#[derive(Debug, Clone)]
pub struct MintFundsResp {}

/// What a dollar sale bought.
#[derive(Debug, Clone)]
pub struct SellDollarsResp {
    pub euros_bought: PositiveAsset<Euro>,
}

/// What a euro sale bought.
#[derive(Debug, Clone)]
pub struct SellEurosResp {
    pub dollars_bought: PositiveAsset<Usd>,
}

/// One page of owners, in ascending order.
#[derive(Debug, Clone)]
pub struct ListOwnersResp {
    pub owners: Vec<Owner>,
}

impl ListOwnersResp {
    /// The cursor with which a paging client continues after this page:
    /// its last owner, or nothing when the page is empty and the walk is
    /// done.
    pub fn next_cursor(&self) -> (r: Option<Owner>)
        ensures
            r is Some <==> self.owners@.len() > 0,
            r is Some ==> r->0@ == self.owners@.last()@,
    {
        if self.owners.len() == 0 {
            None
        } else {
            Some(self.owners[self.owners.len() - 1].clone())
        }
    }
}

/// One response shape per request variant.
#[derive(Debug, Clone)]
pub enum ServerResponse {
    Status(StatusResp),
    Balance(BalanceResp),
    MintFunds(MintFundsResp),
    SellDollars(SellDollarsResp),
    SellEuros(SellEurosResp),
    ListOwners(ListOwnersResp),
}

/// An owner together with both balances, as assembled by a paging client.
#[derive(Debug)]
pub struct OwnerBalance {
    pub owner: Owner,
    pub dollars: UnsignedAsset<Usd>,
    pub euros: UnsignedAsset<Euro>,
}

} // verus!
