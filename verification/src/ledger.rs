//! The ledger: per-owner balances held in ascending owner order, plus the
//! two strictly positive pool reserves, together with the constant-product
//! swap operations that mutate it.

use vstd::prelude::*;

use crate::asset::{Euro, PositiveAsset, UnsignedAsset, Usd};
use crate::error::Fault;
use crate::messages::{
    ListOwnersResp, MintFundsResp, Owner, SellDollarsResp, SellEurosResp, StatusResp,
};
use crate::positive_decimal::PositiveDecimal;
use crate::price::Price;
use crate::text::{
    chars_lt, lemma_chars_lt_asymmetric, lemma_chars_lt_irreflexive, lemma_chars_lt_transitive,
    lemma_chars_lt_trichotomy, str_eq, str_lt,
};
use crate::unsigned_decimal::{scaled_div, scaled_mul};

verus! {

broadcast use crate::asset::lemma_unsigned_asset_bound;

/// One account, as the specification sees it.
pub struct AccountView {
    pub owner: Seq<char>,
    pub usd: nat,
    pub euro: nat,
}

/// The whole ledger, as the specification sees it.
pub struct LedgerView {
    pub accounts: Seq<AccountView>,
    pub pool_usd: nat,
    pub pool_euro: nat,
}

/// Accounts are kept in strictly ascending owner order, so each owner
/// appears at most once.
pub open spec fn sorted_accounts(accs: Seq<AccountView>) -> bool {
    forall|i: int, j: int|
        0 <= i < j < accs.len() ==> chars_lt(#[trigger] accs[i].owner, #[trigger] accs[j].owner)
}

/// The ledger invariant: accounts sorted, balances representable, both
/// pool reserves strictly positive and representable.
pub open spec fn ledger_wf(v: LedgerView) -> bool {
    &&& sorted_accounts(v.accounts)
    &&& forall|i: int|
        0 <= i < v.accounts.len() ==> (#[trigger] v.accounts[i]).usd <= u64::MAX
            && v.accounts[i].euro <= u64::MAX
    &&& 0 < v.pool_usd <= u64::MAX
    &&& 0 < v.pool_euro <= u64::MAX
}

/// The USD balance of `o`: zero for an unknown owner.
pub open spec fn usd_bal(accs: Seq<AccountView>, o: Seq<char>) -> nat
    decreases accs.len(),
{
    if accs.len() == 0 {
        0
    } else if accs[0].owner == o {
        accs[0].usd
    } else {
        usd_bal(accs.drop_first(), o)
    }
}

/// The EURO balance of `o`: zero for an unknown owner.
pub open spec fn euro_bal(accs: Seq<AccountView>, o: Seq<char>) -> nat
    decreases accs.len(),
{
    if accs.len() == 0 {
        0
    } else if accs[0].owner == o {
        accs[0].euro
    } else {
        euro_bal(accs.drop_first(), o)
    }
}

/// Does `o` own an account?
pub open spec fn has_owner(accs: Seq<AccountView>, o: Seq<char>) -> bool
    decreases accs.len(),
{
    if accs.len() == 0 {
        false
    } else {
        accs[0].owner == o || has_owner(accs.drop_first(), o)
    }
}

/// Adds to `o`'s balances, creating the account — at its place in the
/// order — on first contact.
pub open spec fn credit_accounts(accs: Seq<AccountView>, o: Seq<char>, du: nat, de: nat) -> Seq<
    AccountView,
>
    decreases accs.len(),
{
    if accs.len() == 0 {
        seq![AccountView { owner: o, usd: du, euro: de }]
    } else if chars_lt(o, accs[0].owner) {
        seq![AccountView { owner: o, usd: du, euro: de }] + accs
    } else if accs[0].owner == o {
        seq![
            AccountView { owner: o, usd: (accs[0].usd + du) as nat, euro: (accs[0].euro + de) as nat },
        ] + accs.drop_first()
    } else {
        seq![accs[0]] + credit_accounts(accs.drop_first(), o, du, de)
    }
}

/// Replaces `o`'s balances; unchanged when `o` owns no account.
pub open spec fn set_balances(accs: Seq<AccountView>, o: Seq<char>, u: nat, e: nat) -> Seq<
    AccountView,
>
    decreases accs.len(),
{
    if accs.len() == 0 {
        accs
    } else if accs[0].owner == o {
        seq![AccountView { owner: o, usd: u, euro: e }] + accs.drop_first()
    } else {
        seq![accs[0]] + set_balances(accs.drop_first(), o, u, e)
    }
}

/// If position `i` holds owner `o` in a sorted account list, the balance
/// functions read exactly that entry.
pub proof fn lemma_bal_at(accs: Seq<AccountView>, o: Seq<char>, i: int)
    requires
        sorted_accounts(accs),
        0 <= i < accs.len(),
        accs[i].owner == o,
    ensures
        usd_bal(accs, o) == accs[i].usd,
        euro_bal(accs, o) == accs[i].euro,
        has_owner(accs, o),
    decreases accs.len(),
{
    if i > 0 {
        assert(chars_lt(accs[0].owner, o));
        lemma_chars_lt_irreflexive(o);
        assert(accs[0].owner != o);
        assert(sorted_accounts(accs.drop_first())) by {
            assert(forall|x: int, y: int|
                0 <= x < y < accs.len() - 1 ==> accs.drop_first()[x] == accs[x + 1]
                    && accs.drop_first()[y] == accs[y + 1]);
        }
        lemma_bal_at(accs.drop_first(), o, i - 1);
    }
}

/// An owner found nowhere has zero balances.
pub proof fn lemma_bal_absent(accs: Seq<AccountView>, o: Seq<char>)
    requires
        forall|i: int| 0 <= i < accs.len() ==> (#[trigger] accs[i]).owner != o,
    ensures
        usd_bal(accs, o) == 0,
        euro_bal(accs, o) == 0,
        !has_owner(accs, o),
    decreases accs.len(),
{
    if accs.len() > 0 {
        assert(forall|i: int|
            0 <= i < accs.len() - 1 ==> (#[trigger] accs.drop_first()[i]) == accs[i + 1]);
        lemma_bal_absent(accs.drop_first(), o);
    }
}

/// Crediting an owner already at position `i` updates that entry in
/// place.
pub proof fn lemma_credit_update(accs: Seq<AccountView>, o: Seq<char>, du: nat, de: nat, i: int)
    requires
        sorted_accounts(accs),
        0 <= i < accs.len(),
        accs[i].owner == o,
    ensures
        credit_accounts(accs, o, du, de) =~= accs.update(
            i,
            AccountView {
                owner: o,
                usd: (accs[i].usd + du) as nat,
                euro: (accs[i].euro + de) as nat,
            },
        ),
    decreases accs.len(),
{
    if i == 0 {
        lemma_chars_lt_irreflexive(o);
    } else {
        assert(chars_lt(accs[0].owner, o));
        lemma_chars_lt_irreflexive(o);
        lemma_chars_lt_asymmetric(accs[0].owner, o);
        assert(sorted_accounts(accs.drop_first())) by {
            assert(forall|x: int, y: int|
                0 <= x < y < accs.len() - 1 ==> accs.drop_first()[x] == accs[x + 1]
                    && accs.drop_first()[y] == accs[y + 1]);
        }
        lemma_credit_update(accs.drop_first(), o, du, de, i - 1);
    }
}

/// Crediting an absent owner inserts a fresh entry at its position `p`.
pub proof fn lemma_credit_insert(accs: Seq<AccountView>, o: Seq<char>, du: nat, de: nat, p: int)
    requires
        0 <= p <= accs.len(),
        forall|j: int| 0 <= j < p ==> chars_lt((#[trigger] accs[j]).owner, o),
        p < accs.len() ==> chars_lt(o, accs[p].owner),
    ensures
        credit_accounts(accs, o, du, de) =~= accs.take(p) + seq![
            AccountView { owner: o, usd: du, euro: de },
        ] + accs.skip(p),
    decreases accs.len(),
{
    if accs.len() == 0 {
    } else if p == 0 {
        assert(chars_lt(o, accs[0].owner));
    } else {
        assert(chars_lt(accs[0].owner, o));
        lemma_chars_lt_asymmetric(accs[0].owner, o);
        lemma_chars_lt_irreflexive(o);
        assert(accs[0].owner != o) by {
            if accs[0].owner == o {
                assert(chars_lt(o, o));
            }
        }
        assert(forall|j: int|
            0 <= j < p - 1 ==> (#[trigger] accs.drop_first()[j]) == accs[j + 1]);
        lemma_credit_insert(accs.drop_first(), o, du, de, p - 1);
        assert(accs.drop_first().take(p - 1) =~= accs.take(p).drop_first());
        assert(accs.drop_first().skip(p - 1) =~= accs.skip(p));
    }
}

/// What crediting does to each balance: the named owner gains exactly the
/// credited amounts, every other owner keeps both balances.
pub proof fn lemma_credit_bal(accs: Seq<AccountView>, o: Seq<char>, du: nat, de: nat, p: Seq<char>)
    requires
        sorted_accounts(accs),
    ensures
        usd_bal(credit_accounts(accs, o, du, de), p) == usd_bal(accs, p) + (if p == o {
            du
        } else {
            0
        }),
        euro_bal(credit_accounts(accs, o, du, de), p) == euro_bal(accs, p) + (if p == o {
            de
        } else {
            0
        }),
    decreases accs.len(),
{
    let new = credit_accounts(accs, o, du, de);
    if accs.len() == 0 {
        assert(new == seq![AccountView { owner: o, usd: du, euro: de }]);
        assert(new[0] == AccountView { owner: o, usd: du, euro: de });
        assert(new.len() == 1);
        if p != o {
            assert(new[0].owner != p);
            assert(new.drop_first() =~= Seq::<AccountView>::empty());
            assert(usd_bal(new, p) == usd_bal(new.drop_first(), p));
            assert(euro_bal(new, p) == euro_bal(new.drop_first(), p));
        } else {
            assert(new[0].owner == p);
            assert(usd_bal(new, p) == du);
            assert(euro_bal(new, p) == de);
        }
        assert(usd_bal(new, p) == usd_bal(accs, p) + (if p == o { du } else { 0 }));
        assert(euro_bal(new, p) == euro_bal(accs, p) + (if p == o { de } else { 0 }));
    } else if chars_lt(o, accs[0].owner) {
        assert(new.drop_first() =~= accs);
        if p == o {
            assert forall|i: int| 0 <= i < accs.len() implies (#[trigger] accs[i]).owner != o by {
                if i > 0 {
                    lemma_chars_lt_transitive(o, accs[0].owner, accs[i].owner);
                }
                lemma_chars_lt_irreflexive(o);
                if accs[i].owner == o {
                    assert(chars_lt(o, o));
                }
            }
            lemma_bal_absent(accs, o);
        }
        assert(usd_bal(new, p) == usd_bal(accs, p) + (if p == o { du } else { 0 }));
        assert(euro_bal(new, p) == euro_bal(accs, p) + (if p == o { de } else { 0 }));
    } else if accs[0].owner == o {
        assert(new.drop_first() =~= accs.drop_first());
        assert(new[0].owner == o);
        if p == o {
            assert(usd_bal(new, p) == accs[0].usd + du);
            assert(usd_bal(accs, p) == accs[0].usd);
            assert(euro_bal(new, p) == accs[0].euro + de);
            assert(euro_bal(accs, p) == accs[0].euro);
        } else {
            assert(usd_bal(new, p) == usd_bal(accs.drop_first(), p));
            assert(usd_bal(accs, p) == usd_bal(accs.drop_first(), p));
            assert(euro_bal(new, p) == euro_bal(accs.drop_first(), p));
            assert(euro_bal(accs, p) == euro_bal(accs.drop_first(), p));
        }
    } else {
        assert(sorted_accounts(accs.drop_first())) by {
            assert(forall|x: int, y: int|
                0 <= x < y < accs.len() - 1 ==> accs.drop_first()[x] == accs[x + 1]
                    && accs.drop_first()[y] == accs[y + 1]);
        }
        lemma_credit_bal(accs.drop_first(), o, du, de, p);
        assert(new.drop_first() =~= credit_accounts(accs.drop_first(), o, du, de));
        assert(new[0] == accs[0]);
        assert(usd_bal(new, p) == usd_bal(accs, p) + (if p == o { du } else { 0 }));
        assert(euro_bal(new, p) == euro_bal(accs, p) + (if p == o { de } else { 0 }));
    }
}

/// What replacing a present owner's balances does to each balance.
pub proof fn lemma_set_balances_bal(
    accs: Seq<AccountView>,
    o: Seq<char>,
    u: nat,
    e: nat,
    p: Seq<char>,
)
    requires
        sorted_accounts(accs),
        has_owner(accs, o),
    ensures
        usd_bal(set_balances(accs, o, u, e), p) == (if p == o {
            u
        } else {
            usd_bal(accs, p)
        }),
        euro_bal(set_balances(accs, o, u, e), p) == (if p == o {
            e
        } else {
            euro_bal(accs, p)
        }),
    decreases accs.len(),
{
    let new = set_balances(accs, o, u, e);
    if accs[0].owner == o {
        assert(new.drop_first() =~= accs.drop_first());
        if p == o {
            assert(usd_bal(new, p) == u);
        } else {
            assert(usd_bal(new, p) == usd_bal(accs.drop_first(), p));
        }
    } else {
        assert(sorted_accounts(accs.drop_first())) by {
            assert(forall|x: int, y: int|
                0 <= x < y < accs.len() - 1 ==> accs.drop_first()[x] == accs[x + 1]
                    && accs.drop_first()[y] == accs[y + 1]);
        }
        lemma_set_balances_bal(accs.drop_first(), o, u, e, p);
        assert(new.drop_first() =~= set_balances(accs.drop_first(), o, u, e));
        assert(new[0] == accs[0]);
    }
}

/// Replacing balances at the position `i` of a sorted account list is a
/// pointwise update.
pub proof fn lemma_set_balances_update(accs: Seq<AccountView>, o: Seq<char>, u: nat, e: nat, i: int)
    requires
        sorted_accounts(accs),
        0 <= i < accs.len(),
        accs[i].owner == o,
    ensures
        set_balances(accs, o, u, e) =~= accs.update(i, AccountView { owner: o, usd: u, euro: e }),
    decreases accs.len(),
{
    if i == 0 {
    } else {
        assert(chars_lt(accs[0].owner, o));
        lemma_chars_lt_irreflexive(o);
        assert(accs[0].owner != o) by {
            if accs[0].owner == o {
                assert(chars_lt(o, o));
            }
        }
        assert(sorted_accounts(accs.drop_first())) by {
            assert(forall|x: int, y: int|
                0 <= x < y < accs.len() - 1 ==> accs.drop_first()[x] == accs[x + 1]
                    && accs.drop_first()[y] == accs[y + 1]);
        }
        lemma_set_balances_update(accs.drop_first(), o, u, e, i - 1);
    }
}

/// May `trader` sell `dollars` against the pools of `v`? The trader must
/// hold the dollars, and the euro reserve after the constant-product
/// update must still be strictly positive and strictly below the old one.
pub open spec fn sell_dollars_ok(v: LedgerView, trader: Seq<char>, dollars: nat) -> bool {
    let k = scaled_mul(v.pool_usd, v.pool_euro);
    let npe = scaled_div(k, v.pool_usd + dollars);
    &&& dollars <= usd_bal(v.accounts, trader)
    &&& 0 < npe < v.pool_euro
}

/// How many euros selling `dollars` buys: the old euro reserve minus the
/// reserve that keeps `K` constant, so all rounding loss stays with the
/// pool.
pub open spec fn sell_dollars_bought(v: LedgerView, dollars: nat) -> nat {
    let k = scaled_mul(v.pool_usd, v.pool_euro);
    let npe = scaled_div(k, v.pool_usd + dollars);
    (v.pool_euro - npe) as nat
}

/// The ledger after a successful dollar sale. The next state is a
/// function of the state before and the request alone, so any
/// interleaving of sales that runs them in the same order ends in the
/// same state.
pub open spec fn sell_dollars_next(v: LedgerView, trader: Seq<char>, dollars: nat) -> LedgerView {
    let k = scaled_mul(v.pool_usd, v.pool_euro);
    let npu = v.pool_usd + dollars;
    let npe = scaled_div(k, npu);
    let bought = (v.pool_euro - npe) as nat;
    LedgerView {
        accounts: set_balances(
            v.accounts,
            trader,
            (usd_bal(v.accounts, trader) - dollars) as nat,
            (euro_bal(v.accounts, trader) + bought) as nat,
        ),
        pool_usd: npu,
        pool_euro: npe,
    }
}

/// May `trader` sell `euros` against the pools of `v`? The mirror image
/// of [`sell_dollars_ok`].
pub open spec fn sell_euros_ok(v: LedgerView, trader: Seq<char>, euros: nat) -> bool {
    let k = scaled_mul(v.pool_usd, v.pool_euro);
    let npu = scaled_div(k, v.pool_euro + euros);
    &&& euros <= euro_bal(v.accounts, trader)
    &&& 0 < npu < v.pool_usd
}

/// How many dollars selling `euros` buys.
pub open spec fn sell_euros_bought(v: LedgerView, euros: nat) -> nat {
    let k = scaled_mul(v.pool_usd, v.pool_euro);
    let npu = scaled_div(k, v.pool_euro + euros);
    (v.pool_usd - npu) as nat
}

/// The ledger after a successful euro sale.
pub open spec fn sell_euros_next(v: LedgerView, trader: Seq<char>, euros: nat) -> LedgerView {
    let k = scaled_mul(v.pool_usd, v.pool_euro);
    let npe = v.pool_euro + euros;
    let npu = scaled_div(k, npe);
    let bought = (v.pool_usd - npu) as nat;
    LedgerView {
        accounts: set_balances(
            v.accounts,
            trader,
            (usd_bal(v.accounts, trader) + bought) as nat,
            (euro_bal(v.accounts, trader) - euros) as nat,
        ),
        pool_usd: npu,
        pool_euro: npe,
    }
}

/// Growing one reserve and dividing `K` by the grown reserve never leaves
/// more of the other asset than the pool held before: the counter reserve
/// shrinks, so the pool never pays out more than it has.
pub proof fn lemma_counter_reserve_bound(pu: nat, pe: nat, d: nat)
    requires
        pu >= 1,
        pe >= 1,
        d >= 1,
    ensures
        scaled_div(scaled_mul(pu, pe), pu + d) <= pe,
{
    let k = scaled_mul(pu, pe);
    assert(k * 1_000_000 <= pu * pe) by {
        vstd::arithmetic::div_mod::lemma_fundamental_div_mod((pu * pe) as int, 1_000_000);
    }
    vstd::arithmetic::div_mod::lemma_div_is_ordered(
        (k * 1_000_000) as int,
        (pu * pe) as int,
        (pu + d) as int,
    );
    vstd::arithmetic::div_mod::lemma_div_is_ordered_by_denominator(
        (pu * pe) as int,
        pu as int,
        (pu + d) as int,
    );
    vstd::arithmetic::div_mod::lemma_div_multiples_vanish(pe as int, pu as int);
    assert(((k * 1_000_000) as int) / ((pu + d) as int) <= ((pu * pe) as int) / ((pu + d) as int));
    assert(((pu * pe) as int) / ((pu + d) as int) <= ((pu * pe) as int) / (pu as int));
    assert(((pu * pe) as int) / (pu as int) == pe);
}

/// An owner with something on account owns an account.
pub proof fn lemma_positive_bal_has_owner(accs: Seq<AccountView>, o: Seq<char>)
    requires
        usd_bal(accs, o) > 0 || euro_bal(accs, o) > 0,
    ensures
        has_owner(accs, o),
    decreases accs.len(),
{
    if accs.len() > 0 && accs[0].owner != o {
        lemma_positive_bal_has_owner(accs.drop_first(), o);
    }
}

/// What a successful dollar sale does to each balance: the trader pays
/// exactly the dollars sold and receives exactly the euros bought, and
/// every other owner's balances are untouched.
pub proof fn lemma_sell_dollars_balances(
    v: LedgerView,
    trader: Seq<char>,
    dollars: nat,
    p: Seq<char>,
)
    requires
        ledger_wf(v),
        dollars >= 1,
        sell_dollars_ok(v, trader, dollars),
    ensures
        usd_bal(sell_dollars_next(v, trader, dollars).accounts, p) == (if p == trader {
            usd_bal(v.accounts, trader) - dollars
        } else {
            usd_bal(v.accounts, p) as int
        }),
        euro_bal(sell_dollars_next(v, trader, dollars).accounts, p) == (if p == trader {
            euro_bal(v.accounts, trader) + sell_dollars_bought(v, dollars)
        } else {
            euro_bal(v.accounts, p)
        }),
{
    lemma_positive_bal_has_owner(v.accounts, trader);
    lemma_set_balances_bal(
        v.accounts,
        trader,
        (usd_bal(v.accounts, trader) - dollars) as nat,
        (euro_bal(v.accounts, trader) + sell_dollars_bought(v, dollars)) as nat,
        p,
    );
}

/// The mirror of [`lemma_sell_dollars_balances`] for euro sales.
pub proof fn lemma_sell_euros_balances(v: LedgerView, trader: Seq<char>, euros: nat, p: Seq<char>)
    requires
        ledger_wf(v),
        euros >= 1,
        sell_euros_ok(v, trader, euros),
    ensures
        euro_bal(sell_euros_next(v, trader, euros).accounts, p) == (if p == trader {
            euro_bal(v.accounts, trader) - euros
        } else {
            euro_bal(v.accounts, p) as int
        }),
        usd_bal(sell_euros_next(v, trader, euros).accounts, p) == (if p == trader {
            usd_bal(v.accounts, trader) + sell_euros_bought(v, euros)
        } else {
            usd_bal(v.accounts, p)
        }),
{
    lemma_positive_bal_has_owner(v.accounts, trader);
    lemma_set_balances_bal(
        v.accounts,
        trader,
        (usd_bal(v.accounts, trader) + sell_euros_bought(v, euros)) as nat,
        (euro_bal(v.accounts, trader) - euros) as nat,
        p,
    );
}

/// Total USD held across all accounts (the pool aside).
pub open spec fn sum_usd(accs: Seq<AccountView>) -> nat
    decreases accs.len(),
{
    if accs.len() == 0 {
        0
    } else {
        sum_usd(accs.drop_last()) + accs.last().usd
    }
}

/// Total EURO held across all accounts (the pool aside).
pub open spec fn sum_euro(accs: Seq<AccountView>) -> nat
    decreases accs.len(),
{
    if accs.len() == 0 {
        0
    } else {
        sum_euro(accs.drop_last()) + accs.last().euro
    }
}

/// Summing a longer prefix never yields less.
pub proof fn lemma_sum_prefix_mono(accs: Seq<AccountView>, i: int, j: int)
    requires
        0 <= i <= j <= accs.len(),
    ensures
        sum_usd(accs.take(i)) <= sum_usd(accs.take(j)),
        sum_euro(accs.take(i)) <= sum_euro(accs.take(j)),
    decreases j - i,
{
    if i < j {
        lemma_sum_prefix_mono(accs, i, j - 1);
        assert(accs.take(j).drop_last() =~= accs.take(j - 1));
    }
}

/// The owners that pagination still has to hand out: every owner of
/// `accs`, in order, strictly greater than the cursor (all of them when
/// there is no cursor).
pub open spec fn owners_after(accs: Seq<AccountView>, cursor: Option<Seq<char>>) -> Seq<Seq<char>>
    decreases accs.len(),
{
    if accs.len() == 0 {
        Seq::empty()
    } else {
        let rest = owners_after(accs.drop_first(), cursor);
        if match cursor {
            Some(c) => chars_lt(c, accs[0].owner),
            None => true,
        } {
            seq![accs[0].owner] + rest
        } else {
            rest
        }
    }
}

/// The owner list of an account list.
pub open spec fn owners_of(accs: Seq<AccountView>) -> Seq<Seq<char>> {
    accs.map_values(|a: AccountView| a.owner)
}

/// Without a cursor, pagination hands out every owner.
pub proof fn lemma_owners_after_all(accs: Seq<AccountView>)
    ensures
        owners_after(accs, None) =~= owners_of(accs),
    decreases accs.len(),
{
    if accs.len() > 0 {
        lemma_owners_after_all(accs.drop_first());
        assert(owners_of(accs).drop_first() =~= owners_of(accs.drop_first()));
    }
}

/// If the first `p` owners are not past the cursor and all later ones
/// are, pagination hands out exactly the owners from `p` on.
pub proof fn lemma_owners_after_split(accs: Seq<AccountView>, c: Seq<char>, p: int)
    requires
        0 <= p <= accs.len(),
        forall|j: int| 0 <= j < p ==> !chars_lt(c, (#[trigger] accs[j]).owner),
        forall|j: int| p <= j < accs.len() ==> chars_lt(c, (#[trigger] accs[j]).owner),
    ensures
        owners_after(accs, Some(c)) =~= owners_of(accs.skip(p)),
    decreases accs.len(),
{
    if accs.len() == 0 {
    } else if p == 0 {
        assert(forall|j: int|
            0 <= j < accs.len() - 1 ==> (#[trigger] accs.drop_first()[j]) == accs[j + 1]);
        lemma_owners_after_split(accs.drop_first(), c, 0);
        assert(accs.drop_first().skip(0) =~= accs.drop_first());
        assert(owners_of(accs.skip(0)).drop_first() =~= owners_of(accs.drop_first()));
        assert(accs.skip(0) =~= accs);
    } else {
        assert(forall|j: int|
            0 <= j < accs.len() - 1 ==> (#[trigger] accs.drop_first()[j]) == accs[j + 1]);
        lemma_owners_after_split(accs.drop_first(), c, p - 1);
        assert(accs.drop_first().skip(p - 1) =~= accs.skip(p));
    }
}

/// Every owner that pagination hands out lies strictly past the cursor.
pub proof fn lemma_owners_after_gt(accs: Seq<AccountView>, c: Seq<char>)
    ensures
        forall|m: int|
            0 <= m < owners_after(accs, Some(c)).len() ==> chars_lt(
                c,
                #[trigger] owners_after(accs, Some(c))[m],
            ),
    decreases accs.len(),
{
    if accs.len() > 0 {
        lemma_owners_after_gt(accs.drop_first(), c);
        let rem = owners_after(accs, Some(c));
        let rest = owners_after(accs.drop_first(), Some(c));
        assert forall|m: int| 0 <= m < rem.len() implies chars_lt(c, #[trigger] rem[m]) by {
            if chars_lt(c, accs[0].owner) {
                if m > 0 {
                    assert(rem[m] == rest[m - 1]);
                }
            } else {
                assert(rem[m] == rest[m]);
            }
        }
    }
}

/// If every owner lies past `h`, so does everything pagination hands
/// out, whatever the cursor.
pub proof fn lemma_owners_after_bound(accs: Seq<AccountView>, cursor: Option<Seq<char>>, h: Seq<char>)
    requires
        forall|i: int| 0 <= i < accs.len() ==> chars_lt(h, (#[trigger] accs[i]).owner),
    ensures
        forall|m: int|
            0 <= m < owners_after(accs, cursor).len() ==> chars_lt(
                h,
                #[trigger] owners_after(accs, cursor)[m],
            ),
    decreases accs.len(),
{
    if accs.len() > 0 {
        assert(forall|i: int|
            0 <= i < accs.len() - 1 ==> (#[trigger] accs.drop_first()[i]) == accs[i + 1]);
        lemma_owners_after_bound(accs.drop_first(), cursor, h);
        let rem = owners_after(accs, cursor);
        let rest = owners_after(accs.drop_first(), cursor);
        let head_in = match cursor {
            Some(c) => chars_lt(c, accs[0].owner),
            None => true,
        };
        assert forall|m: int| 0 <= m < rem.len() implies chars_lt(h, #[trigger] rem[m]) by {
            if head_in {
                if m > 0 {
                    assert(rem[m] == rest[m - 1]);
                }
            } else {
                assert(rem[m] == rest[m]);
            }
        }
    }
}

/// Pagination hands out every owner exactly once: continuing the walk
/// after the `k`-th owner a page returned yields precisely the owners
/// that follow it — nothing is repeated and nothing is skipped. Chaining
/// pages by their last owner therefore enumerates, together with
/// [`lemma_owners_after_all`], each owner of the ledger once.
pub proof fn lemma_pagination_chain(accs: Seq<AccountView>, cursor: Option<Seq<char>>, k: int)
    requires
        sorted_accounts(accs),
        0 <= k < owners_after(accs, cursor).len(),
    ensures
        owners_after(accs, Some(owners_after(accs, cursor)[k])) =~= owners_after(
            accs,
            cursor,
        ).skip(k + 1),
    decreases accs.len(),
{
    let rem = owners_after(accs, cursor);
    let h = accs[0].owner;
    let tail = accs.drop_first();
    assert(sorted_accounts(tail)) by {
        assert(forall|x: int, y: int|
            0 <= x < y < accs.len() - 1 ==> tail[x] == accs[x + 1] && tail[y] == accs[y + 1]);
    }
    assert(forall|i: int| 0 <= i < tail.len() ==> chars_lt(h, (#[trigger] tail[i]).owner)) by {
        assert(forall|i: int| 0 <= i < tail.len() ==> tail[i] == accs[i + 1]);
    }
    let head_in = match cursor {
        Some(c) => chars_lt(c, h),
        None => true,
    };
    if head_in {
        assert(rem == seq![h] + owners_after(tail, cursor));
        if k == 0 {
            assert(rem[0] == h);
            // everything in the tail is past the head
            lemma_owners_after_split(tail, h, 0);
            assert(tail.skip(0) =~= tail);
            // and the tail's page under the old cursor is also everything
            match cursor {
                Some(c) => {
                    assert(forall|j: int|
                        0 <= j < tail.len() ==> chars_lt(c, (#[trigger] tail[j]).owner)) by {
                        assert forall|j: int| 0 <= j < tail.len() implies chars_lt(
                            c,
                            (#[trigger] tail[j]).owner,
                        ) by {
                            lemma_chars_lt_transitive(c, h, tail[j].owner);
                        }
                    }
                    lemma_owners_after_split(tail, c, 0);
                },
                None => {
                    lemma_owners_after_all(tail);
                },
            }
            assert(owners_after(accs, Some(h)) == owners_after(tail, Some(h))) by {
                lemma_chars_lt_irreflexive(h);
            }
            assert(rem.skip(1) =~= owners_after(tail, cursor));
        } else {
            let x = rem[k];
            assert(x == owners_after(tail, cursor)[k - 1]);
            lemma_owners_after_bound(tail, cursor, h);
            assert(chars_lt(h, x));
            assert(owners_after(accs, Some(x)) == owners_after(tail, Some(x))) by {
                lemma_chars_lt_asymmetric(h, x);
            }
            lemma_pagination_chain(tail, cursor, k - 1);
            assert(rem.skip(k + 1) =~= owners_after(tail, cursor).skip(k));
        }
    } else {
        let c = cursor->0;
        assert(rem == owners_after(tail, cursor));
        let x = rem[k];
        lemma_owners_after_gt(tail, c);
        assert(chars_lt(c, x));
        assert(!chars_lt(x, h)) by {
            lemma_chars_lt_trichotomy(h, c);
            lemma_chars_lt_irreflexive(h);
            if h == c {
                lemma_chars_lt_asymmetric(c, x);
            } else if chars_lt(h, c) {
                lemma_chars_lt_transitive(h, c, x);
                lemma_chars_lt_asymmetric(h, x);
            } else {
                assert(chars_lt(c, h));
                assert(false);
            }
        }
        assert(owners_after(accs, Some(x)) == owners_after(tail, Some(x)));
        lemma_pagination_chain(tail, cursor, k);
    }
}

/// One account of the ledger.
pub struct Account {
    pub owner: Owner,
    pub usd: UnsignedAsset<Usd>,
    pub euro: UnsignedAsset<Euro>,
}

impl View for Account {
    type V = AccountView;

    open spec fn view(&self) -> AccountView {
        AccountView { owner: self.owner@, usd: self.usd@, euro: self.euro@ }
    }
}

/// The ledger itself. Created once with positive pool reserves; mutated
/// only through the operations below, which keep [`ledger_wf`].
pub struct Ledger {
    accounts: Vec<Account>,
    pool_usd: PositiveAsset<Usd>,
    pool_euro: PositiveAsset<Euro>,
}

impl View for Ledger {
    type V = LedgerView;

    closed spec fn view(&self) -> LedgerView {
        LedgerView {
            accounts: self.accounts@.map_values(|a: Account| a@),
            pool_usd: self.pool_usd@,
            pool_euro: self.pool_euro@,
        }
    }
}

impl Ledger {
    /// The ledger invariant, stated over the view.
    pub open spec fn wf(&self) -> bool {
        ledger_wf(self@)
    }

    /// A fresh ledger with no accounts and the given reserves.
    pub fn new(pool_usd: PositiveAsset<Usd>, pool_euro: PositiveAsset<Euro>) -> (r: Self)
        requires
            pool_usd.wf(),
            pool_euro.wf(),
        ensures
            r.wf(),
            r@.accounts.len() == 0,
            r@.pool_usd == pool_usd@,
            r@.pool_euro == pool_euro@,
    {
        let r = Ledger { accounts: Vec::new(), pool_usd, pool_euro };
        proof {
            assert(r@.accounts =~= Seq::<AccountView>::empty());
        }
        r
    }

    /// The current reserves.
    pub fn pools(&self) -> (r: (PositiveAsset<Usd>, PositiveAsset<Euro>))
        ensures
            r.0@ == self@.pool_usd,
            r.1@ == self@.pool_euro,
    {
        (self.pool_usd, self.pool_euro)
    }

    /// Where `owner`'s account is, if anywhere.
    fn find_account(&self, owner: &Owner) -> (r: Option<usize>)
        ensures
            match r {
                Some(i) => i < self@.accounts.len() && self@.accounts[i as int].owner == owner@,
                None => forall|i: int|
                    0 <= i < self@.accounts.len() ==> (#[trigger] self@.accounts[i]).owner
                        != owner@,
            },
    {
        let n = self.accounts.len();
        let mut i: usize = 0;
        while i < n
            invariant
                n == self@.accounts.len(),
                0 <= i <= n,
                forall|j: int| 0 <= j < i ==> (#[trigger] self@.accounts[j]).owner != owner@,
            decreases n - i,
        {
            if str_eq(self.accounts[i].owner.as_str(), owner.as_str()) {
                proof {
                    assert(self@.accounts[i as int] == self.accounts@[i as int]@);
                }
                return Some(i);
            }
            i += 1;
        }
        None
    }

    /// Both balances of `owner`; zero for an unknown owner, never an
    /// error.
    pub fn get_balance(&self, owner: &Owner) -> (r: (UnsignedAsset<Usd>, UnsignedAsset<Euro>))
        requires
            self.wf(),
        ensures
            r.0@ == usd_bal(self@.accounts, owner@),
            r.1@ == euro_bal(self@.accounts, owner@),
    {
        match self.find_account(owner) {
            Some(i) => {
                proof {
                    lemma_bal_at(self@.accounts, owner@, i as int);
                }
                (self.accounts[i].usd, self.accounts[i].euro)
            },
            None => {
                proof {
                    lemma_bal_absent(self@.accounts, owner@);
                }
                (UnsignedAsset::zero(Usd), UnsignedAsset::zero(Euro))
            },
        }
    }

    /// Adds unconditionally to `owner`'s balances, creating the account on
    /// first contact; the pools are untouched.
    pub fn credit(
        &mut self,
        owner: &Owner,
        usd_amt: UnsignedAsset<Usd>,
        euro_amt: UnsignedAsset<Euro>,
    )
        requires
            old(self).wf(),
            usd_bal(old(self)@.accounts, owner@) + usd_amt@ <= u64::MAX,
            euro_bal(old(self)@.accounts, owner@) + euro_amt@ <= u64::MAX,
        ensures
            final(self).wf(),
            final(self)@.accounts == credit_accounts(
                old(self)@.accounts,
                owner@,
                usd_amt@,
                euro_amt@,
            ),
            final(self)@.pool_usd == old(self)@.pool_usd,
            final(self)@.pool_euro == old(self)@.pool_euro,
    {
        let ghost accs = self@.accounts;
        let n = self.accounts.len();
        let mut i: usize = 0;
        while i < n && str_lt(self.accounts[i].owner.as_str(), owner.as_str())
            invariant
                n == self@.accounts.len(),
                0 <= i <= n,
                forall|j: int| 0 <= j < i ==> chars_lt((#[trigger] self@.accounts[j]).owner, owner@),
            decreases n - i,
        {
            proof {
                assert(self@.accounts[i as int] == self.accounts@[i as int]@);
            }
            i += 1;
        }
        if i < n && str_eq(self.accounts[i].owner.as_str(), owner.as_str()) {
            // the owner already has an account: update it in place
            proof {
                lemma_bal_at(accs, owner@, i as int);
            }
            let new_usd = self.accounts[i].usd.add(usd_amt);
            let new_euro = self.accounts[i].euro.add(euro_amt);
            let new_owner = self.accounts[i].owner.clone();
            self.accounts[i] = Account { owner: new_owner, usd: new_usd, euro: new_euro };
            proof {
                let iv = i as int;
                let new = self@.accounts;
                lemma_credit_update(accs, owner@, usd_amt@, euro_amt@, iv);
                assert(new =~= credit_accounts(accs, owner@, usd_amt@, euro_amt@));
                // only balances changed, so the order of owners holds
                assert(forall|j: int|
                    0 <= j < new.len() ==> (#[trigger] new[j]).owner == accs[j].owner);
                assert(forall|x: int, y: int|
                    0 <= x < y < new.len() ==> chars_lt(
                        (#[trigger] new[x]).owner,
                        (#[trigger] new[y]).owner,
                    ));
            }
        } else {
            // no account yet: insert one, keeping the order
            proof {
                if i < n {
                    lemma_chars_lt_trichotomy(self@.accounts[i as int].owner, owner@);
                }
                assert forall|j: int| 0 <= j < n implies (#[trigger] accs[j]).owner != owner@ by {
                    lemma_chars_lt_irreflexive(owner@);
                    if j > i {
                        lemma_chars_lt_transitive(owner@, accs[i as int].owner, accs[j].owner);
                    }
                }
                lemma_bal_absent(accs, owner@);
                lemma_credit_insert(accs, owner@, usd_amt@, euro_amt@, i as int);
            }
            self.accounts.insert(i, Account { owner: owner.clone(), usd: usd_amt, euro: euro_amt });
            proof {
                let iv = i as int;
                let new = self@.accounts;
                assert(new =~= accs.take(iv) + seq![
                    AccountView { owner: owner@, usd: usd_amt@, euro: euro_amt@ },
                ] + accs.skip(iv));
                assert(new =~= credit_accounts(accs, owner@, usd_amt@, euro_amt@));
                // the new entry sits between its neighbours, so order holds
                assert forall|x: int, y: int| 0 <= x < y < new.len() implies chars_lt(
                    (#[trigger] new[x]).owner,
                    (#[trigger] new[y]).owner,
                ) by {
                    if y > iv && x == iv {
                        if y - 1 > iv {
                            lemma_chars_lt_transitive(owner@, accs[iv].owner, accs[y - 1].owner);
                        }
                    }
                }
            }
        }
    }

    /// Mints new funds: an unconditional credit of both balances, with no
    /// pool effect. Always succeeds.
    pub fn mint_funds(
        &mut self,
        recipient: &Owner,
        usd_amount: UnsignedAsset<Usd>,
        euro_amount: UnsignedAsset<Euro>,
    ) -> (r: MintFundsResp)
        requires
            old(self).wf(),
            usd_bal(old(self)@.accounts, recipient@) + usd_amount@ <= u64::MAX,
            euro_bal(old(self)@.accounts, recipient@) + euro_amount@ <= u64::MAX,
        ensures
            final(self).wf(),
            final(self)@.accounts == credit_accounts(
                old(self)@.accounts,
                recipient@,
                usd_amount@,
                euro_amount@,
            ),
            final(self)@.pool_usd == old(self)@.pool_usd,
            final(self)@.pool_euro == old(self)@.pool_euro,
    {
        self.credit(recipient, usd_amount, euro_amount);
        MintFundsResp {  }
    }

    /// Checked-subtracts from `owner`'s dollar balance; fails — changing
    /// nothing — when the balance is short.
    pub fn debit_usd(&mut self, owner: &Owner, amt: UnsignedAsset<Usd>) -> (r: Result<(), Fault>)
        requires
            old(self).wf(),
        ensures
            final(self).wf(),
            r is Ok <==> amt@ <= usd_bal(old(self)@.accounts, owner@),
            r is Ok ==> final(self)@.accounts == set_balances(
                old(self)@.accounts,
                owner@,
                (usd_bal(old(self)@.accounts, owner@) - amt@) as nat,
                euro_bal(old(self)@.accounts, owner@),
            ),
            r is Err ==> final(self)@ == old(self)@ && r->Err_0 == Fault::InsufficientFunds,
            final(self)@.pool_usd == old(self)@.pool_usd,
            final(self)@.pool_euro == old(self)@.pool_euro,
    {
        let ghost accs = self@.accounts;
        match self.find_account(owner) {
            Some(i) => {
                proof {
                    lemma_bal_at(accs, owner@, i as int);
                }
                let new_usd = match self.accounts[i].usd.checked_sub(amt) {
                    Ok(v) => v,
                    Err(_) => {
                        return Err(Fault::InsufficientFunds);
                    },
                };
                let euro = self.accounts[i].euro;
                let new_owner = self.accounts[i].owner.clone();
                self.accounts[i] = Account { owner: new_owner, usd: new_usd, euro };
                proof {
                    Self::lemma_replace_at(accs, owner@, i as int, self@.accounts);
                }
                Ok(())
            },
            None => {
                proof {
                    lemma_bal_absent(accs, owner@);
                }
                if amt.into_decimal().is_zero() {
                    proof {
                        Self::lemma_set_absent(accs, owner@, 0, euro_bal(accs, owner@));
                    }
                    Ok(())
                } else {
                    Err(Fault::InsufficientFunds)
                }
            },
        }
    }

    /// Checked-subtracts from `owner`'s euro balance; fails — changing
    /// nothing — when the balance is short.
    pub fn debit_euro(&mut self, owner: &Owner, amt: UnsignedAsset<Euro>) -> (r: Result<(), Fault>)
        requires
            old(self).wf(),
        ensures
            final(self).wf(),
            r is Ok <==> amt@ <= euro_bal(old(self)@.accounts, owner@),
            r is Ok ==> final(self)@.accounts == set_balances(
                old(self)@.accounts,
                owner@,
                usd_bal(old(self)@.accounts, owner@),
                (euro_bal(old(self)@.accounts, owner@) - amt@) as nat,
            ),
            r is Err ==> final(self)@ == old(self)@ && r->Err_0 == Fault::InsufficientFunds,
            final(self)@.pool_usd == old(self)@.pool_usd,
            final(self)@.pool_euro == old(self)@.pool_euro,
    {
        let ghost accs = self@.accounts;
        match self.find_account(owner) {
            Some(i) => {
                proof {
                    lemma_bal_at(accs, owner@, i as int);
                }
                let new_euro = match self.accounts[i].euro.checked_sub(amt) {
                    Ok(v) => v,
                    Err(_) => {
                        return Err(Fault::InsufficientFunds);
                    },
                };
                let usd = self.accounts[i].usd;
                let new_owner = self.accounts[i].owner.clone();
                self.accounts[i] = Account { owner: new_owner, usd, euro: new_euro };
                proof {
                    Self::lemma_replace_at(accs, owner@, i as int, self@.accounts);
                }
                Ok(())
            },
            None => {
                proof {
                    lemma_bal_absent(accs, owner@);
                }
                if amt.into_decimal().is_zero() {
                    proof {
                        Self::lemma_set_absent(accs, owner@, usd_bal(accs, owner@), 0);
                    }
                    Ok(())
                } else {
                    Err(Fault::InsufficientFunds)
                }
            },
        }
    }

    /// Replacing the entry at the owner's position is exactly
    /// `set_balances`, and keeps the invariant's shape.
    proof fn lemma_replace_at(
        accs: Seq<AccountView>,
        o: Seq<char>,
        i: int,
        new: Seq<AccountView>,
    )
        requires
            sorted_accounts(accs),
            0 <= i < accs.len(),
            accs[i].owner == o,
            new =~= accs.update(i, AccountView { owner: o, usd: new[i].usd, euro: new[i].euro }),
        ensures
            new == set_balances(accs, o, new[i].usd, new[i].euro),
            sorted_accounts(new),
    {
        lemma_set_balances_update(accs, o, new[i].usd, new[i].euro, i);
        assert(forall|j: int| 0 <= j < new.len() ==> (#[trigger] new[j]).owner == accs[j].owner);
        assert(forall|x: int, y: int|
            0 <= x < y < new.len() ==> chars_lt(
                (#[trigger] new[x]).owner,
                (#[trigger] new[y]).owner,
            ));
    }

    /// Replacing balances of an absent owner changes nothing.
    proof fn lemma_set_absent(accs: Seq<AccountView>, o: Seq<char>, u: nat, e: nat)
        requires
            forall|i: int| 0 <= i < accs.len() ==> (#[trigger] accs[i]).owner != o,
        ensures
            set_balances(accs, o, u, e) == accs,
        decreases accs.len(),
    {
        if accs.len() > 0 {
            assert(forall|i: int|
                0 <= i < accs.len() - 1 ==> (#[trigger] accs.drop_first()[i]) == accs[i + 1]);
            Self::lemma_set_absent(accs.drop_first(), o, u, e);
            assert(set_balances(accs, o, u, e) =~= accs);
        }
    }

    /// Sells `dollars` of the trader's balance for euros at the pool:
    /// debit the dollars, grow the dollar reserve, shrink the euro
    /// reserve to keep `K = pool_usd * pool_euro`, and credit the euros
    /// bought. Runs whole-or-not-at-all: on any failure the ledger is
    /// exactly as before.
    pub fn sell_dollars(&mut self, trader: &Owner, dollars: PositiveAsset<Usd>) -> (r: Result<
        SellDollarsResp,
        Fault,
    >)
        requires
            old(self).wf(),
            dollars.wf(),
            scaled_mul(old(self)@.pool_usd, old(self)@.pool_euro) <= u64::MAX,
            old(self)@.pool_usd + dollars@ <= u64::MAX,
            euro_bal(old(self)@.accounts, trader@) + old(self)@.pool_euro <= u64::MAX,
        ensures
            final(self).wf(),
            r is Ok <==> sell_dollars_ok(old(self)@, trader@, dollars@),
            r is Ok ==> final(self)@ == sell_dollars_next(old(self)@, trader@, dollars@)
                && r->Ok_0.euros_bought@ == sell_dollars_bought(old(self)@, dollars@),
            r is Err ==> final(self)@ == old(self)@,
            r is Err ==> r->Err_0 == (if dollars@ > usd_bal(old(self)@.accounts, trader@) {
                Fault::InsufficientFunds
            } else {
                Fault::PoolInvariantViolation
            }),
    {
        let ghost v = self@;
        proof {
            lemma_counter_reserve_bound(v.pool_usd, v.pool_euro, dollars@);
        }
        let i = match self.find_account(trader) {
            Some(i) => i,
            None => {
                proof {
                    lemma_bal_absent(v.accounts, trader@);
                }
                return Err(Fault::InsufficientFunds);
            },
        };
        proof {
            lemma_bal_at(v.accounts, trader@, i as int);
        }
        let new_usd = match self.accounts[i].usd.checked_sub(dollars.into_unsigned()) {
            Ok(d) => d,
            Err(_) => {
                return Err(Fault::InsufficientFunds);
            },
        };
        let k = self.pool_usd.into_unsigned().into_decimal().mul(
            self.pool_euro.into_unsigned().into_decimal(),
        );
        let new_pool_usd = self.pool_usd.add(dollars);
        let npe_dec = k.div(new_pool_usd.into_unsigned().into_decimal());
        let npe = match PositiveDecimal::new(npe_dec) {
            Ok(p) => p,
            Err(_) => {
                return Err(Fault::PoolInvariantViolation);
            },
        };
        let new_pool_euro = PositiveAsset::new(Euro, npe);
        let euros_bought = match self.pool_euro.checked_sub(new_pool_euro) {
            Ok(e) => e,
            Err(_) => {
                return Err(Fault::PoolInvariantViolation);
            },
        };
        let new_euro = self.accounts[i].euro.add(euros_bought.into_unsigned());
        let new_owner = self.accounts[i].owner.clone();
        self.accounts[i] = Account { owner: new_owner, usd: new_usd, euro: new_euro };
        self.pool_usd = new_pool_usd;
        self.pool_euro = new_pool_euro;
        proof {
            Self::lemma_replace_at(v.accounts, trader@, i as int, self@.accounts);
        }
        Ok(SellDollarsResp { euros_bought })
    }

    /// The mirror of [`Ledger::sell_dollars`]: sells euros for dollars.
    pub fn sell_euros(&mut self, trader: &Owner, euros: PositiveAsset<Euro>) -> (r: Result<
        SellEurosResp,
        Fault,
    >)
        requires
            old(self).wf(),
            euros.wf(),
            scaled_mul(old(self)@.pool_usd, old(self)@.pool_euro) <= u64::MAX,
            old(self)@.pool_euro + euros@ <= u64::MAX,
            usd_bal(old(self)@.accounts, trader@) + old(self)@.pool_usd <= u64::MAX,
        ensures
            final(self).wf(),
            r is Ok <==> sell_euros_ok(old(self)@, trader@, euros@),
            r is Ok ==> final(self)@ == sell_euros_next(old(self)@, trader@, euros@)
                && r->Ok_0.dollars_bought@ == sell_euros_bought(old(self)@, euros@),
            r is Err ==> final(self)@ == old(self)@,
            r is Err ==> r->Err_0 == (if euros@ > euro_bal(old(self)@.accounts, trader@) {
                Fault::InsufficientFunds
            } else {
                Fault::PoolInvariantViolation
            }),
    {
        let ghost v = self@;
        proof {
            lemma_counter_reserve_bound(v.pool_euro, v.pool_usd, euros@);
            assert(scaled_mul(v.pool_euro, v.pool_usd) == scaled_mul(v.pool_usd, v.pool_euro)) by {
                assert(v.pool_euro * v.pool_usd == v.pool_usd * v.pool_euro);
            }
        }
        let i = match self.find_account(trader) {
            Some(i) => i,
            None => {
                proof {
                    lemma_bal_absent(v.accounts, trader@);
                }
                return Err(Fault::InsufficientFunds);
            },
        };
        proof {
            lemma_bal_at(v.accounts, trader@, i as int);
        }
        let new_euro = match self.accounts[i].euro.checked_sub(euros.into_unsigned()) {
            Ok(d) => d,
            Err(_) => {
                return Err(Fault::InsufficientFunds);
            },
        };
        let k = self.pool_usd.into_unsigned().into_decimal().mul(
            self.pool_euro.into_unsigned().into_decimal(),
        );
        let new_pool_euro = self.pool_euro.add(euros);
        let npu_dec = k.div(new_pool_euro.into_unsigned().into_decimal());
        let npu = match PositiveDecimal::new(npu_dec) {
            Ok(p) => p,
            Err(_) => {
                return Err(Fault::PoolInvariantViolation);
            },
        };
        let new_pool_usd = PositiveAsset::new(Usd, npu);
        let dollars_bought = match self.pool_usd.checked_sub(new_pool_usd) {
            Ok(e) => e,
            Err(_) => {
                return Err(Fault::PoolInvariantViolation);
            },
        };
        let new_usd = self.accounts[i].usd.add(dollars_bought.into_unsigned());
        let new_owner = self.accounts[i].owner.clone();
        self.accounts[i] = Account { owner: new_owner, usd: new_usd, euro: new_euro };
        self.pool_usd = new_pool_usd;
        self.pool_euro = new_pool_euro;
        proof {
            Self::lemma_replace_at(v.accounts, trader@, i as int, self@.accounts);
        }
        Ok(SellEurosResp { dollars_bought })
    }

    /// A consistent snapshot: the total of each currency over all
    /// accounts and its pool, and the two pool prices. Read-only; fails
    /// only when a pool ratio floors to zero.
    pub fn status(&self) -> (r: Result<StatusResp, Fault>)
        requires
            self.wf(),
            sum_usd(self@.accounts) + self@.pool_usd <= u64::MAX,
            sum_euro(self@.accounts) + self@.pool_euro <= u64::MAX,
            scaled_div(self@.pool_euro, self@.pool_usd) <= u64::MAX,
            scaled_div(self@.pool_usd, self@.pool_euro) <= u64::MAX,
        ensures
            r is Ok <==> (scaled_div(self@.pool_euro, self@.pool_usd) > 0 && scaled_div(
                self@.pool_usd,
                self@.pool_euro,
            ) > 0),
            r is Ok ==> r->Ok_0.total_usd@ == sum_usd(self@.accounts) + self@.pool_usd
                && r->Ok_0.total_euro@ == sum_euro(self@.accounts) + self@.pool_euro
                && r->Ok_0.price_usd@ == scaled_div(self@.pool_euro, self@.pool_usd)
                && r->Ok_0.price_euro@ == scaled_div(self@.pool_usd, self@.pool_euro),
            r is Err ==> r->Err_0 == Fault::DegenerateRatio,
    {
        let ghost accs = self@.accounts;
        let mut total_usd = UnsignedAsset::zero(Usd);
        let mut total_euro = UnsignedAsset::zero(Euro);
        let n = self.accounts.len();
        let mut i: usize = 0;
        proof {
            assert(accs.take(0) =~= Seq::<AccountView>::empty());
        }
        while i < n
            invariant
                self.wf(),
                accs == self@.accounts,
                n == accs.len(),
                0 <= i <= n,
                total_usd@ == sum_usd(accs.take(i as int)),
                total_euro@ == sum_euro(accs.take(i as int)),
                sum_usd(accs) + self@.pool_usd <= u64::MAX,
                sum_euro(accs) + self@.pool_euro <= u64::MAX,
            decreases n - i,
        {
            proof {
                assert(accs.take(i + 1).drop_last() =~= accs.take(i as int));
                assert(accs.take(i + 1).last() == accs[i as int]);
                lemma_sum_prefix_mono(accs, i + 1, n as int);
                assert(accs.take(n as int) =~= accs);
            }
            total_usd = total_usd.add(self.accounts[i].usd);
            total_euro = total_euro.add(self.accounts[i].euro);
            i += 1;
        }
        proof {
            assert(accs.take(n as int) =~= accs);
        }
        total_usd = total_usd.add(self.pool_usd.into_unsigned());
        total_euro = total_euro.add(self.pool_euro.into_unsigned());
        let price_usd = match Price::from_asset_ratios(self.pool_usd, self.pool_euro) {
            Ok(p) => p,
            Err(e) => {
                return Err(e);
            },
        };
        let price_euro = match Price::from_asset_ratios(self.pool_euro, self.pool_usd) {
            Ok(p) => p,
            Err(e) => {
                return Err(e);
            },
        };
        Ok(StatusResp { total_usd, total_euro, price_usd, price_euro })
    }

    /// Do the totals and both pool ratios stay inside the machine words
    /// that [`Ledger::status`] computes in? A caller checks this before
    /// asking for a status.
    pub fn status_bounds_ok(&self) -> (r: bool)
        requires
            self.wf(),
        ensures
            r == (sum_usd(self@.accounts) + self@.pool_usd <= u64::MAX && sum_euro(self@.accounts)
                + self@.pool_euro <= u64::MAX && scaled_div(self@.pool_euro, self@.pool_usd)
                <= u64::MAX && scaled_div(self@.pool_usd, self@.pool_euro) <= u64::MAX),
    {
        let ghost accs = self@.accounts;
        let n = self.accounts.len();
        let mut su: u128 = 0;
        let mut se: u128 = 0;
        let mut i: usize = 0;
        proof {
            assert(accs.take(0) =~= Seq::<AccountView>::empty());
        }
        while i < n
            invariant
                self.wf(),
                accs == self@.accounts,
                n == accs.len(),
                0 <= i <= n,
                su == sum_usd(accs.take(i as int)),
                se == sum_euro(accs.take(i as int)),
                su <= (i as nat) * (u64::MAX as nat),
                se <= (i as nat) * (u64::MAX as nat),
            decreases n - i,
        {
            proof {
                assert(accs.take(i + 1).drop_last() =~= accs.take(i as int));
                assert(accs.take(i + 1).last() == accs[i as int]);
                assert((i + 1) as nat * (u64::MAX as nat) == (i as nat) * (u64::MAX as nat) + (
                u64::MAX as nat)) by (nonlinear_arith);
                assert((i as nat) * (u64::MAX as nat) + (u64::MAX as nat) <= u128::MAX)
                    by (nonlinear_arith)
                    requires
                        i <= u64::MAX,
                ;
            }
            su = su + (self.accounts[i].usd.into_decimal().get_raw_value() as u128);
            se = se + (self.accounts[i].euro.into_decimal().get_raw_value() as u128);
            i += 1;
        }
        proof {
            assert(accs.take(n as int) =~= accs);
        }
        let pu = self.pool_usd.into_unsigned().into_decimal().get_raw_value();
        let pe = self.pool_euro.into_unsigned().into_decimal().get_raw_value();
        let sums_ok = su <= (u64::MAX as u128) - (pu as u128) && se <= (u64::MAX as u128) - (pe
            as u128);
        proof {
            assert((pe as u128) * 1_000_000 <= u128::MAX && (pu as u128) * 1_000_000 <= u128::MAX)
                by (nonlinear_arith)
                requires
                    pu <= u64::MAX,
                    pe <= u64::MAX,
            ;
        }
        let price_usd_ok = (pe as u128) * (crate::unsigned_decimal::MULTIPLIER as u128) / (pu
            as u128) <= (u64::MAX as u128);
        let price_euro_ok = (pu as u128) * (crate::unsigned_decimal::MULTIPLIER as u128) / (pe
            as u128) <= (u64::MAX as u128);
        sums_ok && price_usd_ok && price_euro_ok
    }

    /// Up to ten owners strictly past the cursor, in ascending order —
    /// or the first ten when there is no cursor. Paging on with the last
    /// owner returned walks the whole owner set.
    pub fn list_owners(&self, start_after: Option<Owner>) -> (r: ListOwnersResp)
        requires
            self.wf(),
        ensures
            ({
                let rem = owners_after(self@.accounts, cursor_view(start_after));
                &&& r.owners@.len() == (if rem.len() <= 10 {
                    rem.len()
                } else {
                    10
                })
                &&& forall|m: int| 0 <= m < r.owners@.len() ==> (#[trigger] r.owners@[m])@ == rem[m]
            }),
    {
        let ghost accs = self@.accounts;
        let n = self.accounts.len();
        let mut p: usize = 0;
        match &start_after {
            Some(cursor) => {
                while p < n && !str_lt(cursor.as_str(), self.accounts[p].owner.as_str())
                    invariant
                        self.wf(),
                        accs == self@.accounts,
                        n == accs.len(),
                        0 <= p <= n,
                        forall|j: int|
                            0 <= j < p ==> !chars_lt(cursor@, (#[trigger] accs[j]).owner),
                    decreases n - p,
                {
                    proof {
                        assert(self@.accounts[p as int] == self.accounts@[p as int]@);
                    }
                    p += 1;
                }
                proof {
                    assert forall|j: int| p <= j < n implies chars_lt(
                        cursor@,
                        (#[trigger] accs[j]).owner,
                    ) by {
                        if j > p {
                            lemma_chars_lt_transitive(cursor@, accs[p as int].owner, accs[j].owner);
                        }
                    }
                    lemma_owners_after_split(accs, cursor@, p as int);
                }
            },
            None => {
                proof {
                    lemma_owners_after_all(accs);
                    assert(accs.skip(0) =~= accs);
                }
            },
        }
        let ghost rem = owners_after(accs, cursor_view(start_after));
        proof {
            assert(rem =~= owners_of(accs.skip(p as int)));
        }
        let mut owners: Vec<Owner> = Vec::new();
        let mut i = p;
        while i < n && owners.len() < 10
            invariant
                self.wf(),
                accs == self@.accounts,
                n == accs.len(),
                rem =~= owners_of(accs.skip(p as int)),
                p <= i <= n,
                owners@.len() == i - p,
                owners@.len() <= 10,
                forall|m: int| 0 <= m < owners@.len() ==> (#[trigger] owners@[m])@ == rem[m],
            decreases n - i,
        {
            let o = self.accounts[i].owner.clone();
            owners.push(o);
            proof {
                assert(rem[i - p] == accs.skip(p as int)[i - p].owner);
                assert(self@.accounts[i as int] == self.accounts@[i as int]@);
            }
            i += 1;
        }
        ListOwnersResp { owners }
    }
}

/// The cursor an optional owner stands for.
pub open spec fn cursor_view(c: Option<Owner>) -> Option<Seq<char>> {
    match c {
        Some(o) => Some(o@),
        None => None,
    }
}

} // verus!
