//! The split of a will's balances among its recipients.
//!
//! Each recipient is owed its percentage of every balance, rounded down. A
//! share below the dust floor is not sent, and a recipient to whom nothing is
//! sent gets no transfer at all.

use crate::host::{Transfer, TransferView};
use crate::state::{
    balance, bounded_shares, coin_position, distinct_denoms, total_percentage, Coin, CoinView,
    Recipient, RecipientView,
};
use crate::tokens::{lemma_balance_push, lemma_coin_position, sum_of};
use vstd::arithmetic::div_mod::{lemma_fundamental_div_mod, lemma_hoist_over_denominator};
use vstd::prelude::*;

verus! {

/// The least share that is worth a transfer.
pub const DUST_FLOOR: u128 = 100_000;

/// The share of `amount` that `percentage` gives, rounded down.
pub open spec fn share(amount: nat, percentage: nat) -> nat {
    amount * percentage / 100
}

/// The coin that a recipient with `percentage` is owed of `token`.
pub open spec fn share_of_coin(percentage: nat) -> spec_fn(CoinView) -> CoinView {
    |token: CoinView| CoinView { denom: token.denom, amount: share(token.amount, percentage) }
}

/// Whether a coin is worth a transfer.
pub open spec fn above_dust() -> spec_fn(CoinView) -> bool {
    |coin: CoinView| coin.amount >= DUST_FLOOR
}

/// What a recipient with `percentage` is sent of `tokens`: its share of each
/// balance, in the order of the balances, without the shares below the dust
/// floor.
pub open spec fn payout(tokens: Seq<CoinView>, percentage: nat) -> Seq<CoinView> {
    tokens.map_values(share_of_coin(percentage)).filter(above_dust())
}

/// The transfer that `tokens` owe to a recipient.
pub open spec fn transfer_to(tokens: Seq<CoinView>) -> spec_fn(RecipientView) -> TransferView {
    |recipient: RecipientView|
        TransferView {
            to_address: recipient.address,
            amount: payout(tokens, recipient.percentage),
        }
}

/// Whether a transfer sends anything.
pub open spec fn sends_something() -> spec_fn(TransferView) -> bool {
    |transfer: TransferView| transfer.amount.len() > 0
}

/// The transfers by which `tokens` are distributed among `recipients`: one
/// for each recipient that is sent anything, in the order of the recipients.
pub open spec fn transfers(recipients: Seq<RecipientView>, tokens: Seq<CoinView>) -> Seq<
    TransferView,
> {
    recipients.map_values(transfer_to(tokens)).filter(sends_something())
}

/// A share never exceeds the amount it is taken from.
pub proof fn lemma_share_bounded(amount: nat, percentage: nat)
    requires
        percentage <= 100,
    ensures
        share(amount, percentage) <= amount,
{
    assert(amount * percentage <= amount * 100) by (nonlinear_arith)
        requires
            percentage <= 100,
    ;
    assert(amount * percentage / 100 <= amount * 100 / 100) by (nonlinear_arith)
        requires
            amount * percentage <= amount * 100,
    ;
    assert(amount * 100 / 100 == amount) by (nonlinear_arith);
}

/// The share of `amount` that `percentage` gives, rounded down. No
/// intermediate value leaves 128 bits.
pub fn compute_share(amount: u128, percentage: u128) -> (res: u128)
    requires
        percentage <= 100,
    ensures
        res == share(amount as nat, percentage as nat),
{
    let hundreds: u128 = amount / 100;
    let rest: u128 = amount % 100;
    proof {
        assert(hundreds * percentage <= amount) by (nonlinear_arith)
            requires
                hundreds == amount / 100,
                percentage <= 100,
        ;
        assert(rest * percentage <= 9900) by (nonlinear_arith)
            requires
                rest < 100,
                percentage <= 100,
        ;
        lemma_hoist_over_denominator(rest * percentage, hundreds * percentage, 100);
        assert(amount * percentage == rest * percentage + (hundreds * percentage) * 100)
            by (nonlinear_arith)
            requires
                hundreds == amount / 100,
                rest == amount % 100,
        ;
        lemma_share_bounded(amount as nat, percentage as nat);
    }
    hundreds * percentage + rest * percentage / 100
}

/// What a recipient with `percentage` is sent of `tokens`.
pub fn compute_payout(tokens: &Vec<Coin>, percentage: u128) -> (res: Vec<Coin>)
    requires
        percentage <= 100,
    ensures
        res.deep_view() == payout(tokens.deep_view(), percentage as nat),
{
    let ghost all = tokens.deep_view();
    let ghost owed = all.map_values(share_of_coin(percentage as nat));
    let mut res: Vec<Coin> = Vec::new();
    let mut i: usize = 0;
    proof {
        assert(owed.take(0) =~= Seq::<CoinView>::empty());
        reveal(Seq::filter);
        assert(res.deep_view() =~= owed.take(0).filter(above_dust()));
    }
    while i < tokens.len()
        invariant
            i <= tokens.len(),
            percentage <= 100,
            all == tokens.deep_view(),
            owed == all.map_values(share_of_coin(percentage as nat)),
            res.deep_view() == owed.take(i as int).filter(above_dust()),
        decreases tokens.len() - i,
    {
        let amount: u128 = compute_share(tokens[i].amount, percentage);
        let ghost before = res.deep_view();
        proof {
            assert(owed.take(i as int + 1) =~= owed.take(i as int).push(owed[i as int]));
            owed.take(i as int).lemma_filter_push(owed[i as int], above_dust());
            assert(owed[i as int] == CoinView {
                denom: tokens[i as int].denom@,
                amount: amount as nat,
            });
        }
        if amount >= DUST_FLOOR {
            res.push(Coin { denom: tokens[i].denom.clone(), amount });
            assert(res.deep_view() =~= before.push(owed[i as int]));
        }
        i += 1;
    }
    assert(owed.take(tokens.len() as int) =~= owed);
    res
}

/// The transfers by which `tokens` are distributed among `recipients`.
pub fn plan_transfers(recipients: &Vec<Recipient>, tokens: &Vec<Coin>) -> (res: Vec<Transfer>)
    requires
        bounded_shares(recipients.deep_view()),
    ensures
        res.deep_view() == transfers(recipients.deep_view(), tokens.deep_view()),
{
    let ghost all = recipients.deep_view();
    let ghost owed = all.map_values(transfer_to(tokens.deep_view()));
    let mut res: Vec<Transfer> = Vec::new();
    let mut i: usize = 0;
    proof {
        assert(owed.take(0) =~= Seq::<TransferView>::empty());
        reveal(Seq::filter);
        assert(res.deep_view() =~= owed.take(0).filter(sends_something()));
    }
    while i < recipients.len()
        invariant
            i <= recipients.len(),
            bounded_shares(all),
            all == recipients.deep_view(),
            owed == all.map_values(transfer_to(tokens.deep_view())),
            res.deep_view() == owed.take(i as int).filter(sends_something()),
        decreases recipients.len() - i,
    {
        assert(all[i as int].percentage <= 100);
        let amount = compute_payout(tokens, recipients[i].percentage);
        let ghost before = res.deep_view();
        proof {
            assert(owed.take(i as int + 1) =~= owed.take(i as int).push(owed[i as int]));
            owed.take(i as int).lemma_filter_push(owed[i as int], sends_something());
            assert(owed[i as int] == TransferView {
                to_address: recipients[i as int].address@,
                amount: amount.deep_view(),
            });
        }
        if amount.len() > 0 {
            res.push(Transfer { to_address: recipients[i].address.clone(), amount });
            assert(res.deep_view() =~= before.push(owed[i as int]));
        }
        i += 1;
    }
    assert(owed.take(recipients.len() as int) =~= owed);
    res
}

/// What is sent of `amount` to a recipient with `percentage`: its share, or
/// nothing where the share is below the dust floor.
pub open spec fn paid_share(amount: nat, percentage: nat) -> nat {
    if share(amount, percentage) >= DUST_FLOOR {
        share(amount, percentage)
    } else {
        0
    }
}

/// What is dropped of `amount` as dust for a recipient with `percentage`:
/// its share where that is below the dust floor.
pub open spec fn dust_share(amount: nat, percentage: nat) -> nat {
    if share(amount, percentage) < DUST_FLOOR {
        share(amount, percentage)
    } else {
        0
    }
}

/// What is sent of `amount` to `recipients`, all together.
pub open spec fn paid(recipients: Seq<RecipientView>, amount: nat) -> nat
    decreases recipients.len(),
{
    if recipients.len() == 0 {
        0
    } else {
        paid(recipients.drop_last(), amount) + paid_share(amount, recipients.last().percentage)
    }
}

/// What is dropped of `amount` as dust, over all `recipients`.
pub open spec fn dust(recipients: Seq<RecipientView>, amount: nat) -> nat
    decreases recipients.len(),
{
    if recipients.len() == 0 {
        0
    } else {
        dust(recipients.drop_last(), amount) + dust_share(amount, recipients.last().percentage)
    }
}

/// What rounding down leaves of `amount`, in hundredths, over all
/// `recipients`.
pub open spec fn remainders(recipients: Seq<RecipientView>, amount: nat) -> nat
    decreases recipients.len(),
{
    if recipients.len() == 0 {
        0
    } else {
        remainders(recipients.drop_last(), amount) + (amount * recipients.last().percentage
            % 100) as nat
    }
}

/// What `messages` send of `denom`, all together.
pub open spec fn sent(messages: Seq<TransferView>, denom: Seq<char>) -> nat
    decreases messages.len(),
{
    if messages.len() == 0 {
        0
    } else {
        sent(messages.drop_last(), denom) + sum_of(messages.last().amount, denom)
    }
}

/// What is sent, what is dropped as dust and what rounding leaves make up
/// the amount, times the sum of the percentages.
pub proof fn lemma_shares_add_up(recipients: Seq<RecipientView>, amount: nat)
    ensures
        100 * (paid(recipients, amount) + dust(recipients, amount)) + remainders(
            recipients,
            amount,
        ) == amount * total_percentage(recipients),
    decreases recipients.len(),
{
    if recipients.len() == 0 {
        assert(amount * 0 == 0) by (nonlinear_arith);
    } else {
        let rest = recipients.drop_last();
        let p = recipients.last().percentage;
        lemma_shares_add_up(rest, amount);
        lemma_fundamental_div_mod((amount * p) as int, 100);
        assert(amount * (total_percentage(rest) + p) == amount * total_percentage(rest) + amount
            * p) by (nonlinear_arith);
        assert(paid_share(amount, p) + dust_share(amount, p) == share(amount, p));
    }
}

/// What a recipient is sent of a denomination is what is due of the balance
/// of that denomination.
pub proof fn lemma_payout_of_denom(tokens: Seq<CoinView>, percentage: nat, denom: Seq<char>)
    requires
        distinct_denoms(tokens),
    ensures
        sum_of(payout(tokens, percentage), denom) == paid_share(
            balance(tokens, denom),
            percentage,
        ),
    decreases tokens.len(),
{
    let owed = tokens.map_values(share_of_coin(percentage));
    assert(0 * percentage / 100 == 0) by (nonlinear_arith);
    if tokens.len() == 0 {
        owed.lemma_filter_len(above_dust());
    } else {
        let rest = tokens.drop_last();
        let last = tokens.last();
        let owed_last = share_of_coin(percentage)(last);
        assert(tokens =~= rest.push(last));
        assert(owed =~= rest.map_values(share_of_coin(percentage)).push(owed_last));
        rest.map_values(share_of_coin(percentage)).lemma_filter_push(owed_last, above_dust());
        lemma_payout_of_denom(rest, percentage, denom);
        lemma_balance_push(rest, last, denom);
        lemma_coin_position(rest, denom);
        if last.denom == denom {
            if coin_position(rest, denom) < rest.len() {
                assert(tokens[coin_position(rest, denom)].denom == tokens[tokens.len()
                    - 1].denom);
            }
        }
        if above_dust()(owed_last) {
            assert(payout(tokens, percentage).drop_last() =~= payout(rest, percentage));
        }
    }
}

/// What the transfers send of a denomination is what is sent of the balance
/// of that denomination.
pub proof fn lemma_transfers_of_denom(
    recipients: Seq<RecipientView>,
    tokens: Seq<CoinView>,
    denom: Seq<char>,
)
    requires
        distinct_denoms(tokens),
    ensures
        sent(transfers(recipients, tokens), denom) == paid(recipients, balance(tokens, denom)),
    decreases recipients.len(),
{
    let owed = recipients.map_values(transfer_to(tokens));
    if recipients.len() == 0 {
        owed.lemma_filter_len(sends_something());
    } else {
        let rest = recipients.drop_last();
        let last = recipients.last();
        let owed_last = transfer_to(tokens)(last);
        assert(recipients =~= rest.push(last));
        assert(owed =~= rest.map_values(transfer_to(tokens)).push(owed_last));
        rest.map_values(transfer_to(tokens)).lemma_filter_push(owed_last, sends_something());
        lemma_transfers_of_denom(rest, tokens, denom);
        lemma_payout_of_denom(tokens, last.percentage, denom);
        if sends_something()(owed_last) {
            assert(transfers(recipients, tokens).drop_last() =~= transfers(rest, tokens));
        }
    }
}

} // verus!
