//! Exhaustive dispatch of the closed request set onto the ledger, and the
//! machine-limit gate a caller checks before dispatching.

use vstd::prelude::*;

use crate::asset::{Euro, PositiveAsset, UnsignedAsset, Usd};
use crate::error::Fault;
use crate::ledger::{
    credit_accounts, cursor_view, euro_bal, owners_after, sell_dollars_bought, sell_dollars_next,
    sell_dollars_ok, sell_euros_bought, sell_euros_next, sell_euros_ok, sum_euro, sum_usd, usd_bal,
    Ledger,
};
use crate::messages::{ServerRequest, ServerResponse};
use crate::unsigned_decimal::{scaled_div, scaled_mul, MULTIPLIER};

verus! {

/// Are the amounts of `req`, against the ledger state `v`, small enough
/// that every intermediate of the operation fits its machine word?
/// Unchecked arithmetic would panic past these limits; here the caller
/// tests them first through [`Ledger::dispatch_bounds_ok`].
pub open spec fn dispatch_ok(v: crate::ledger::LedgerView, req: ServerRequest) -> bool {
    match req {
        ServerRequest::Status {  } => {
            &&& sum_usd(v.accounts) + v.pool_usd <= u64::MAX
            &&& sum_euro(v.accounts) + v.pool_euro <= u64::MAX
            &&& scaled_div(v.pool_euro, v.pool_usd) <= u64::MAX
            &&& scaled_div(v.pool_usd, v.pool_euro) <= u64::MAX
        },
        ServerRequest::Balance { .. } => true,
        ServerRequest::MintFunds { recipient, usd_amount, euro_amount } => {
            &&& usd_bal(v.accounts, recipient@) + usd_amount@ <= u64::MAX
            &&& euro_bal(v.accounts, recipient@) + euro_amount@ <= u64::MAX
        },
        ServerRequest::SellDollars { trader, dollars } => {
            &&& dollars.wf()
            &&& scaled_mul(v.pool_usd, v.pool_euro) <= u64::MAX
            &&& v.pool_usd + dollars@ <= u64::MAX
            &&& euro_bal(v.accounts, trader@) + v.pool_euro <= u64::MAX
        },
        ServerRequest::SellEuros { trader, euros } => {
            &&& euros.wf()
            &&& scaled_mul(v.pool_usd, v.pool_euro) <= u64::MAX
            &&& v.pool_euro + euros@ <= u64::MAX
            &&& usd_bal(v.accounts, trader@) + v.pool_usd <= u64::MAX
        },
        ServerRequest::ListOwners { .. } => true,
    }
}

/// The ledger state after answering `req` in state `v`: reads leave the
/// state alone, minting credits, and a sale moves the state exactly when
/// its conditions hold. The next state is a function of the state and
/// the request alone — nothing else. So the outcome of any number of
/// callers whose requests are run one at a time under the ledger's lock
/// depends only on the order the lock grants, never on timing: every
/// interleaving that serializes to the same order ends in the same
/// state.
pub open spec fn step_view(v: crate::ledger::LedgerView, req: ServerRequest) -> crate::ledger::LedgerView {
    match req {
        ServerRequest::Status {  } => v,
        ServerRequest::Balance { .. } => v,
        ServerRequest::MintFunds { recipient, usd_amount, euro_amount } => crate::ledger::LedgerView {
            accounts: credit_accounts(v.accounts, recipient@, usd_amount@, euro_amount@),
            ..v
        },
        ServerRequest::SellDollars { trader, dollars } => {
            if sell_dollars_ok(v, trader@, dollars@) {
                sell_dollars_next(v, trader@, dollars@)
            } else {
                v
            }
        },
        ServerRequest::SellEuros { trader, euros } => {
            if sell_euros_ok(v, trader@, euros@) {
                sell_euros_next(v, trader@, euros@)
            } else {
                v
            }
        },
        ServerRequest::ListOwners { .. } => v,
    }
}

/// The ledger state after answering a whole sequence of requests in
/// order.
pub open spec fn apply_requests(v: crate::ledger::LedgerView, reqs: Seq<ServerRequest>) -> crate::ledger::LedgerView
    decreases reqs.len(),
{
    if reqs.len() == 0 {
        v
    } else {
        apply_requests(step_view(v, reqs[0]), reqs.drop_first())
    }
}

impl Ledger {
    /// Does `req` stay inside the machine limits of [`dispatch_ok`]? A
    /// caller holding the lock checks this before [`Ledger::dispatch`]
    /// and treats a refusal as the fatal condition it is.
    pub fn dispatch_bounds_ok(&self, req: &ServerRequest) -> (r: bool)
        requires
            self.wf(),
        ensures
            r == dispatch_ok(self@, *req),
    {
        match req {
            ServerRequest::Status {  } => self.status_bounds_ok(),
            ServerRequest::Balance { .. } => true,
            ServerRequest::MintFunds { recipient, usd_amount, euro_amount } => {
                let (usd, euro) = self.get_balance(recipient);
                let u_ok = usd_amount.into_decimal().get_raw_value() <= u64::MAX
                    - usd.into_decimal().get_raw_value();
                let e_ok = euro_amount.into_decimal().get_raw_value() <= u64::MAX
                    - euro.into_decimal().get_raw_value();
                u_ok && e_ok
            },
            ServerRequest::SellDollars { trader, dollars } => {
                let (pool_usd, pool_euro) = self.pools();
                let pu = pool_usd.into_unsigned().into_decimal().get_raw_value();
                let pe = pool_euro.into_unsigned().into_decimal().get_raw_value();
                let d = dollars.into_unsigned().into_decimal().get_raw_value();
                let (_, euro) = self.get_balance(trader);
                proof {
                    assert((pu as u128) * (pe as u128) <= u128::MAX) by (nonlinear_arith)
                        requires
                            pu <= u64::MAX,
                            pe <= u64::MAX,
                    ;
                }
                let k_ok = (pu as u128) * (pe as u128) / (MULTIPLIER as u128) <= (u64::MAX
                    as u128);
                d >= 1 && k_ok && d <= u64::MAX - pu && pe <= u64::MAX
                    - euro.into_decimal().get_raw_value()
            },
            ServerRequest::SellEuros { trader, euros } => {
                let (pool_usd, pool_euro) = self.pools();
                let pu = pool_usd.into_unsigned().into_decimal().get_raw_value();
                let pe = pool_euro.into_unsigned().into_decimal().get_raw_value();
                let e = euros.into_unsigned().into_decimal().get_raw_value();
                let (usd, _) = self.get_balance(trader);
                proof {
                    assert((pu as u128) * (pe as u128) <= u128::MAX) by (nonlinear_arith)
                        requires
                            pu <= u64::MAX,
                            pe <= u64::MAX,
                    ;
                }
                let k_ok = (pu as u128) * (pe as u128) / (MULTIPLIER as u128) <= (u64::MAX
                    as u128);
                e >= 1 && k_ok && e <= u64::MAX - pe && pu <= u64::MAX
                    - usd.into_decimal().get_raw_value()
            },
            ServerRequest::ListOwners { .. } => true,
        }
    }

    /// Answers one request, holding the ledger for the whole operation:
    /// the closed sum of operations, matched exhaustively.
    pub fn dispatch(&mut self, req: ServerRequest) -> (r: Result<ServerResponse, Fault>)
        requires
            old(self).wf(),
            dispatch_ok(old(self)@, req),
        ensures
            final(self).wf(),
            final(self)@ == step_view(old(self)@, req),
            match req {
                ServerRequest::Status {  } => {
                    &&& final(self)@ == old(self)@
                    &&& (r is Ok <==> (scaled_div(old(self)@.pool_euro, old(self)@.pool_usd) > 0
                        && scaled_div(old(self)@.pool_usd, old(self)@.pool_euro) > 0))
                    &&& (r is Ok ==> (r->Ok_0 matches ServerResponse::Status(s)
                        && s.total_usd@ == sum_usd(old(self)@.accounts) + old(self)@.pool_usd
                        && s.total_euro@ == sum_euro(old(self)@.accounts) + old(self)@.pool_euro
                        && s.price_usd@ == scaled_div(old(self)@.pool_euro, old(self)@.pool_usd)
                        && s.price_euro@ == scaled_div(old(self)@.pool_usd, old(self)@.pool_euro)))
                    &&& (r is Err ==> r->Err_0 == Fault::DegenerateRatio)
                },
                ServerRequest::Balance { owner } => {
                    &&& final(self)@ == old(self)@
                    &&& r is Ok
                    &&& (r->Ok_0 matches ServerResponse::Balance(b) && b.usd@ == usd_bal(
                        old(self)@.accounts,
                        owner@,
                    ) && b.euro@ == euro_bal(old(self)@.accounts, owner@))
                },
                ServerRequest::MintFunds { recipient, usd_amount, euro_amount } => {
                    &&& r is Ok
                    &&& r->Ok_0 is MintFunds
                    &&& final(self)@.accounts == credit_accounts(
                        old(self)@.accounts,
                        recipient@,
                        usd_amount@,
                        euro_amount@,
                    )
                    &&& final(self)@.pool_usd == old(self)@.pool_usd
                    &&& final(self)@.pool_euro == old(self)@.pool_euro
                },
                ServerRequest::SellDollars { trader, dollars } => {
                    &&& (r is Ok <==> sell_dollars_ok(old(self)@, trader@, dollars@))
                    &&& (r is Ok ==> final(self)@ == sell_dollars_next(
                        old(self)@,
                        trader@,
                        dollars@,
                    ) && (r->Ok_0 matches ServerResponse::SellDollars(resp)
                        && resp.euros_bought@ == sell_dollars_bought(old(self)@, dollars@)))
                    &&& (r is Err ==> final(self)@ == old(self)@ && r->Err_0 == (if dollars@
                        > usd_bal(old(self)@.accounts, trader@) {
                        Fault::InsufficientFunds
                    } else {
                        Fault::PoolInvariantViolation
                    }))
                },
                ServerRequest::SellEuros { trader, euros } => {
                    &&& (r is Ok <==> sell_euros_ok(old(self)@, trader@, euros@))
                    &&& (r is Ok ==> final(self)@ == sell_euros_next(old(self)@, trader@, euros@)
                        && (r->Ok_0 matches ServerResponse::SellEuros(resp)
                        && resp.dollars_bought@ == sell_euros_bought(old(self)@, euros@)))
                    &&& (r is Err ==> final(self)@ == old(self)@ && r->Err_0 == (if euros@
                        > euro_bal(old(self)@.accounts, trader@) {
                        Fault::InsufficientFunds
                    } else {
                        Fault::PoolInvariantViolation
                    }))
                },
                ServerRequest::ListOwners { start_after } => {
                    &&& final(self)@ == old(self)@
                    &&& r is Ok
                    &&& (r->Ok_0 matches ServerResponse::ListOwners(resp) && {
                        let rem = owners_after(old(self)@.accounts, cursor_view(start_after));
                        &&& resp.owners@.len() == (if rem.len() <= 10 {
                            rem.len()
                        } else {
                            10
                        })
                        &&& forall|m: int|
                            0 <= m < resp.owners@.len() ==> (#[trigger] resp.owners@[m])@ == rem[m]
                    })
                },
            },
    {
        match req {
            ServerRequest::Status {  } => match self.status() {
                Ok(resp) => Ok(ServerResponse::Status(resp)),
                Err(e) => Err(e),
            },
            ServerRequest::Balance { owner } => {
                let (usd, euro) = self.get_balance(&owner);
                Ok(ServerResponse::Balance(crate::messages::BalanceResp { usd, euro }))
            },
            ServerRequest::MintFunds { recipient, usd_amount, euro_amount } => {
                let resp = self.mint_funds(&recipient, usd_amount, euro_amount);
                Ok(ServerResponse::MintFunds(resp))
            },
            ServerRequest::SellDollars { trader, dollars } => {
                match self.sell_dollars(&trader, dollars) {
                    Ok(resp) => Ok(ServerResponse::SellDollars(resp)),
                    Err(e) => Err(e),
                }
            },
            ServerRequest::SellEuros { trader, euros } => {
                match self.sell_euros(&trader, euros) {
                    Ok(resp) => Ok(ServerResponse::SellEuros(resp)),
                    Err(e) => Err(e),
                }
            },
            ServerRequest::ListOwners { start_after } => {
                let resp = self.list_owners(start_after);
                Ok(ServerResponse::ListOwners(resp))
            },
        }
    }
}

} // verus!
