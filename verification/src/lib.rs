//! A fixed-point decimal numeric core with currency-tagged amounts,
//! plus a constant-product market-making ledger built on it.
//!
//! Layers, leaves first: decimal refinement types ([`UnsignedDecimal`],
//! [`PositiveDecimal`], [`SignedDecimal`]), unit-tagged asset wrappers
//! ([`UnsignedAsset`], [`PositiveAsset`]), exchange rates ([`Price`]),
//! and the [`Ledger`] with its swap operations.

pub mod asset;
pub mod dispatch;
pub mod error;
pub mod ledger;
pub mod messages;
pub mod positive_decimal;
pub mod price;
pub mod signed_decimal;
pub mod text;
pub mod unsigned_decimal;

pub use asset::{split_amount_asset, Asset, Bitcoin, Euro, PositiveAsset, UnsignedAsset, Usd};
pub use dispatch::{apply_requests, dispatch_ok, step_view};
pub use error::Error;
pub use error::Fault;
pub use ledger::{Account, AccountView, Ledger, LedgerView};
pub use messages::{
    Amount, BalanceResp, ListOwnersResp, MintFundsResp, Owner, OwnerBalance, SellDollarsResp,
    SellEurosResp, ServerRequest, ServerResponse, StatusResp,
};
pub use positive_decimal::PositiveDecimal;
pub use price::Price;
pub use signed_decimal::SignedDecimal;
pub use unsigned_decimal::UnsignedDecimal;
