//! The token ledger of a will: crediting deposits and debiting withdrawals.

use crate::error::{ContractError, ErrorView};
use crate::state::{
    amounts_fit, balance, clone_coins, coin_position, distinct_denoms, Coin, CoinView,
};
use vstd::prelude::*;

verus! {

/// The denomination that no will may hold: it marks tokens of a class that
/// this ledger does not keep.
pub open spec fn reserved_denom() -> Seq<char> {
    "cw20"@
}

/// Whether some coin of `coins` has the reserved denomination.
pub open spec fn any_reserved(coins: Seq<CoinView>) -> bool {
    exists|i: int| 0 <= i < coins.len() && #[trigger] coins[i].denom == reserved_denom()
}

/// `tokens` after `coin` was credited: the amount tracked under the coin's
/// denomination grows by the coin's amount, and an untracked denomination is
/// appended.
pub open spec fn credited(tokens: Seq<CoinView>, coin: CoinView) -> Seq<CoinView> {
    let i = coin_position(tokens, coin.denom);
    if 0 <= i < tokens.len() {
        tokens.update(i, CoinView { denom: coin.denom, amount: tokens[i].amount + coin.amount })
    } else {
        tokens.push(coin)
    }
}

/// `tokens` after every coin of `funds` was credited, in order.
pub open spec fn credited_all(tokens: Seq<CoinView>, funds: Seq<CoinView>) -> Seq<CoinView>
    decreases funds.len(),
{
    if funds.len() == 0 {
        tokens
    } else {
        credited(credited_all(tokens, funds.drop_last()), funds.last())
    }
}

/// Whether crediting `funds` to `tokens` keeps every amount within 128 bits.
pub open spec fn credit_fits(tokens: Seq<CoinView>, funds: Seq<CoinView>) -> bool
    decreases funds.len(),
{
    if funds.len() == 0 {
        true
    } else {
        &&& credit_fits(tokens, funds.drop_last())
        &&& balance(credited_all(tokens, funds.drop_last()), funds.last().denom)
            + funds.last().amount <= u128::MAX
    }
}

/// `tokens` after `coin` was debited, or why it cannot be: the reserved
/// denomination is refused, and so is an amount that exceeds what is tracked
/// under the coin's denomination.
pub open spec fn debited(tokens: Seq<CoinView>, coin: CoinView) -> Result<
    Seq<CoinView>,
    ErrorView,
> {
    let i = coin_position(tokens, coin.denom);
    if coin.denom == reserved_denom() {
        Err(ErrorView::InvalidTokenDenom)
    } else if !(0 <= i < tokens.len()) || tokens[i].amount < coin.amount {
        Err(ErrorView::InsufficientFunds)
    } else {
        Ok(
            tokens.update(
                i,
                CoinView { denom: coin.denom, amount: (tokens[i].amount - coin.amount) as nat },
            ),
        )
    }
}

/// `tokens` after every coin of `requests` was debited, in order, or the
/// refusal of the first coin that cannot be.
pub open spec fn debited_all(tokens: Seq<CoinView>, requests: Seq<CoinView>) -> Result<
    Seq<CoinView>,
    ErrorView,
>
    decreases requests.len(),
{
    if requests.len() == 0 {
        Ok(tokens)
    } else {
        match debited_all(tokens, requests.drop_last()) {
            Ok(rest) => debited(rest, requests.last()),
            Err(e) => Err(e),
        }
    }
}

/// Where `coin_position` points: at the first coin of the denomination.
pub proof fn lemma_coin_position(tokens: Seq<CoinView>, denom: Seq<char>)
    ensures
        0 <= coin_position(tokens, denom) <= tokens.len(),
        coin_position(tokens, denom) < tokens.len() ==> tokens[coin_position(
            tokens,
            denom,
        )].denom == denom,
        forall|j: int| 0 <= j < coin_position(tokens, denom) ==> tokens[j].denom != denom,
    decreases tokens.len(),
{
    if tokens.len() > 0 && tokens.first().denom != denom {
        let rest = tokens.drop_first();
        lemma_coin_position(rest, denom);
        assert forall|j: int| 0 <= j < coin_position(tokens, denom) implies tokens[j].denom
            != denom by {
            if j > 0 {
                assert(rest[j - 1] == tokens[j]);
            }
        }
    }
}

/// A coin of the denomination with none of it before is where
/// `coin_position` points.
pub proof fn lemma_coin_position_is(tokens: Seq<CoinView>, denom: Seq<char>, i: int)
    requires
        0 <= i <= tokens.len(),
        i < tokens.len() ==> tokens[i].denom == denom,
        forall|j: int| 0 <= j < i ==> tokens[j].denom != denom,
    ensures
        coin_position(tokens, denom) == i,
{
    lemma_coin_position(tokens, denom);
}

/// Crediting a coin keeps each denomination tracked once.
pub proof fn lemma_credited_distinct(tokens: Seq<CoinView>, coin: CoinView)
    requires
        distinct_denoms(tokens),
    ensures
        distinct_denoms(credited(tokens, coin)),
{
    lemma_coin_position(tokens, coin.denom);
}

/// Debiting a coin keeps each denomination tracked once.
pub proof fn lemma_debited_distinct(tokens: Seq<CoinView>, coin: CoinView)
    requires
        distinct_denoms(tokens),
        debited(tokens, coin) is Ok,
    ensures
        distinct_denoms(debited(tokens, coin)->Ok_0),
{
    lemma_coin_position(tokens, coin.denom);
}

/// Crediting coins keeps each denomination tracked once.
pub proof fn lemma_credited_all_distinct(tokens: Seq<CoinView>, funds: Seq<CoinView>)
    requires
        distinct_denoms(tokens),
    ensures
        distinct_denoms(credited_all(tokens, funds)),
    decreases funds.len(),
{
    if funds.len() > 0 {
        lemma_credited_all_distinct(tokens, funds.drop_last());
        lemma_credited_distinct(credited_all(tokens, funds.drop_last()), funds.last());
    }
}

/// Debiting coins keeps each denomination tracked once.
pub proof fn lemma_debited_all_distinct(tokens: Seq<CoinView>, requests: Seq<CoinView>)
    requires
        distinct_denoms(tokens),
        debited_all(tokens, requests) is Ok,
    ensures
        distinct_denoms(debited_all(tokens, requests)->Ok_0),
    decreases requests.len(),
{
    if requests.len() > 0 {
        lemma_debited_all_distinct(tokens, requests.drop_last());
        lemma_debited_distinct(
            debited_all(tokens, requests.drop_last())->Ok_0,
            requests.last(),
        );
    }
}

/// The position of the first coin of `denom`, if there is one.
pub fn find_coin(tokens: &Vec<Coin>, denom: &String) -> (res: Option<usize>)
    ensures
        match res {
            Some(i) => i < tokens.len() && i == coin_position(tokens.deep_view(), denom@),
            None => coin_position(tokens.deep_view(), denom@) == tokens.len(),
        },
{
    let mut i: usize = 0;
    while i < tokens.len()
        invariant
            i <= tokens.len(),
            forall|j: int| 0 <= j < i ==> tokens.deep_view()[j].denom != denom@,
        decreases tokens.len() - i,
    {
        if tokens[i].denom == *denom {
            proof {
                lemma_coin_position_is(tokens.deep_view(), denom@, i as int);
            }
            return Some(i);
        }
        i += 1;
    }
    proof {
        lemma_coin_position_is(tokens.deep_view(), denom@, i as int);
    }
    None
}

/// Whether `denom` is the reserved denomination.
pub fn is_reserved(denom: &String) -> (res: bool)
    ensures
        res == (denom@ == reserved_denom()),
{
    let reserved = String::from_str("cw20");
    *denom == reserved
}

/// Whether some coin of `coins` has the reserved denomination.
pub fn has_reserved(coins: &Vec<Coin>) -> (res: bool)
    ensures
        res == any_reserved(coins.deep_view()),
{
    let mut i: usize = 0;
    while i < coins.len()
        invariant
            i <= coins.len(),
            forall|j: int| 0 <= j < i ==> coins.deep_view()[j].denom != reserved_denom(),
        decreases coins.len() - i,
    {
        if is_reserved(&coins[i].denom) {
            assert(coins.deep_view()[i as int].denom == reserved_denom());
            return true;
        }
        i += 1;
    }
    false
}

/// Credits `coin` to `tokens`.
pub fn credit(tokens: &mut Vec<Coin>, coin: &Coin)
    requires
        balance(old(tokens).deep_view(), coin@.denom) + coin.amount <= u128::MAX,
    ensures
        final(tokens).deep_view() == credited(old(tokens).deep_view(), coin@),
{
    match find_coin(tokens, &coin.denom) {
        Some(i) => {
            let amount: u128 = tokens[i].amount + coin.amount;
            tokens.set(i, Coin { denom: coin.denom.clone(), amount });
        },
        None => {
            tokens.push(coin.clone());
        },
    }
    assert(tokens.deep_view() =~= credited(old(tokens).deep_view(), coin@));
}

/// Credits every coin of `funds` to `tokens`, in order.
pub fn credit_all(tokens: &mut Vec<Coin>, funds: &Vec<Coin>)
    requires
        credit_fits(old(tokens).deep_view(), funds.deep_view()),
    ensures
        final(tokens).deep_view() == credited_all(old(tokens).deep_view(), funds.deep_view()),
{
    let ghost start = tokens.deep_view();
    let ghost all = funds.deep_view();
    let mut i: usize = 0;
    assert(all.take(0) =~= Seq::<CoinView>::empty());
    while i < funds.len()
        invariant
            i <= funds.len(),
            all == funds.deep_view(),
            start == old(tokens).deep_view(),
            credit_fits(start, all),
            tokens.deep_view() == credited_all(start, all.take(i as int)),
        decreases funds.len() - i,
    {
        proof {
            lemma_credit_fits_prefix(start, all, i as int + 1);
            assert(all.take(i as int + 1).drop_last() =~= all.take(i as int));
            assert(all.take(i as int + 1).last() == funds[i as int]@);
        }
        credit(tokens, &funds[i]);
        i += 1;
    }
    assert(all.take(funds.len() as int) =~= all);
}

/// Whether crediting `funds` to `tokens` keeps every amount within 128 bits.
pub fn credit_would_fit(tokens: &Vec<Coin>, funds: &Vec<Coin>) -> (res: bool)
    ensures
        res == credit_fits(tokens.deep_view(), funds.deep_view()),
{
    let ghost start = tokens.deep_view();
    let ghost all = funds.deep_view();
    let mut trial = clone_coins(tokens);
    let mut i: usize = 0;
    assert(all.take(0) =~= Seq::<CoinView>::empty());
    while i < funds.len()
        invariant
            i <= funds.len(),
            all == funds.deep_view(),
            start == tokens.deep_view(),
            credit_fits(start, all.take(i as int)),
            trial.deep_view() == credited_all(start, all.take(i as int)),
        decreases funds.len() - i,
    {
        proof {
            assert(all.take(i as int + 1).drop_last() =~= all.take(i as int));
            assert(all.take(i as int + 1).last() == funds[i as int]@);
        }
        let fits = match find_coin(&trial, &funds[i].denom) {
            Some(k) => trial[k].amount <= u128::MAX - funds[i].amount,
            None => true,
        };
        if !fits {
            proof {
                if credit_fits(start, all) {
                    lemma_credit_fits_prefix(start, all, i as int + 1);
                }
            }
            return false;
        }
        credit(&mut trial, &funds[i]);
        i += 1;
    }
    assert(all.take(funds.len() as int) =~= all);
    true
}

/// Whatever fits as a whole fits up to any point.
pub proof fn lemma_credit_fits_prefix(tokens: Seq<CoinView>, funds: Seq<CoinView>, n: int)
    requires
        credit_fits(tokens, funds),
        0 <= n <= funds.len(),
    ensures
        credit_fits(tokens, funds.take(n)),
    decreases funds.len(),
{
    if n == funds.len() {
        assert(funds.take(n) =~= funds);
    } else {
        lemma_credit_fits_prefix(tokens, funds.drop_last(), n);
        assert(funds.drop_last().take(n) =~= funds.take(n));
    }
}

/// Debits `coin` from `tokens`, which stay as they are where it is refused.
pub fn debit(tokens: &mut Vec<Coin>, coin: &Coin) -> (res: Result<(), ContractError>)
    ensures
        match res {
            Ok(_) => debited(old(tokens).deep_view(), coin@) == Ok::<Seq<CoinView>, ErrorView>(
                final(tokens).deep_view(),
            ),
            Err(e) => debited(old(tokens).deep_view(), coin@) == Err::<Seq<CoinView>, ErrorView>(
                e@,
            ) && final(tokens).deep_view() == old(tokens).deep_view(),
        },
{
    if is_reserved(&coin.denom) {
        return Err(ContractError::InvalidTokenDenom {  });
    }
    match find_coin(tokens, &coin.denom) {
        None => Err(ContractError::InsufficientFunds {  }),
        Some(i) => {
            if tokens[i].amount < coin.amount {
                return Err(ContractError::InsufficientFunds {  });
            }
            let amount: u128 = tokens[i].amount - coin.amount;
            tokens.set(i, Coin { denom: coin.denom.clone(), amount });
            assert(tokens.deep_view() =~= debited(old(tokens).deep_view(), coin@)->Ok_0);
            Ok(())
        },
    }
}

/// Debits every coin of `requests` from `tokens`, in order. Where a coin is
/// refused, its refusal is the answer and `tokens` stay as they were.
pub fn debit_all(tokens: &mut Vec<Coin>, requests: &Vec<Coin>) -> (res: Result<
    (),
    ContractError,
>)
    ensures
        match res {
            Ok(_) => debited_all(old(tokens).deep_view(), requests.deep_view()) == Ok::<
                Seq<CoinView>,
                ErrorView,
            >(final(tokens).deep_view()),
            Err(e) => debited_all(old(tokens).deep_view(), requests.deep_view()) == Err::<
                Seq<CoinView>,
                ErrorView,
            >(e@) && final(tokens).deep_view() == old(tokens).deep_view(),
        },
{
    let ghost start = tokens.deep_view();
    let ghost all = requests.deep_view();
    let mut trial = clone_coins(tokens);
    let mut i: usize = 0;
    assert(all.take(0) =~= Seq::<CoinView>::empty());
    while i < requests.len()
        invariant
            i <= requests.len(),
            all == requests.deep_view(),
            start == old(tokens).deep_view(),
            tokens.deep_view() == start,
            debited_all(start, all.take(i as int)) == Ok::<Seq<CoinView>, ErrorView>(
                trial.deep_view(),
            ),
        decreases requests.len() - i,
    {
        proof {
            assert(all.take(i as int + 1).drop_last() =~= all.take(i as int));
            assert(all.take(i as int + 1).last() == requests[i as int]@);
        }
        let ghost before = trial.deep_view();
        match debit(&mut trial, &requests[i]) {
            Ok(_) => {},
            Err(e) => {
                proof {
                    assert(debited(before, all.take(i as int + 1).last()) is Err);
                    assert(debited_all(start, all.take(i as int + 1)) is Err);
                    lemma_debit_refusal_stays(start, all, i as int + 1);
                }
                return Err(e);
            },
        }
        i += 1;
    }
    assert(all.take(requests.len() as int) =~= all);
    *tokens = trial;
    Ok(())
}

/// A refusal met at some point is the refusal of the whole.
pub proof fn lemma_debit_refusal_stays(tokens: Seq<CoinView>, requests: Seq<CoinView>, n: int)
    requires
        0 <= n <= requests.len(),
        debited_all(tokens, requests.take(n)) is Err,
    ensures
        debited_all(tokens, requests) == debited_all(tokens, requests.take(n)),
    decreases requests.len(),
{
    if n == requests.len() {
        assert(requests.take(n) =~= requests);
    } else {
        assert(requests.drop_last().take(n) =~= requests.take(n));
        lemma_debit_refusal_stays(tokens, requests.drop_last(), n);
    }
}

/// What `coins` hold of `denom`, all coins of that denomination together.
pub open spec fn sum_of(coins: Seq<CoinView>, denom: Seq<char>) -> nat
    decreases coins.len(),
{
    if coins.len() == 0 {
        0
    } else {
        sum_of(coins.drop_last(), denom) + if coins.last().denom == denom {
            coins.last().amount
        } else {
            0
        }
    }
}

/// What `coin` holds of `denom`.
pub open spec fn amount_of(coin: CoinView, denom: Seq<char>) -> nat {
    if coin.denom == denom {
        coin.amount
    } else {
        0
    }
}

/// The balance after a coin was appended: that of the coin where its
/// denomination was untracked, and the balance before otherwise.
pub proof fn lemma_balance_push(tokens: Seq<CoinView>, coin: CoinView, denom: Seq<char>)
    ensures
        balance(tokens.push(coin), denom) == if coin_position(tokens, denom) < tokens.len() {
            balance(tokens, denom)
        } else {
            amount_of(coin, denom)
        },
{
    let after = tokens.push(coin);
    let j = coin_position(tokens, denom);
    lemma_coin_position(tokens, denom);
    if j < tokens.len() {
        assert forall|i: int| 0 <= i < j implies after[i].denom != denom by {
            assert(tokens[i].denom != denom);
        }
        lemma_coin_position_is(after, denom, j);
    } else if coin.denom == denom {
        lemma_coin_position_is(after, denom, tokens.len() as int);
    } else {
        assert forall|i: int| 0 <= i < after.len() implies after[i].denom != denom by {
            if i < tokens.len() {
                assert(tokens[i].denom != denom);
            }
        }
        lemma_coin_position_is(after, denom, after.len() as int);
    }
}

/// Crediting a coin raises the balance of its denomination by its amount
/// and leaves every other balance as it was.
pub proof fn lemma_credited_balance(tokens: Seq<CoinView>, coin: CoinView, denom: Seq<char>)
    ensures
        balance(credited(tokens, coin), denom) == balance(tokens, denom) + amount_of(coin, denom),
{
    let after = credited(tokens, coin);
    let k = coin_position(tokens, coin.denom);
    let j = coin_position(tokens, denom);
    lemma_coin_position(tokens, coin.denom);
    lemma_coin_position(tokens, denom);
    if j < tokens.len() {
        assert forall|i: int| 0 <= i < j implies after[i].denom != denom by {
            assert(tokens[i].denom != denom);
        }
        lemma_coin_position_is(after, denom, j);
    } else if coin.denom == denom {
        lemma_coin_position_is(after, denom, tokens.len() as int);
    } else {
        assert forall|i: int| 0 <= i < after.len() implies after[i].denom != denom by {
            if i < tokens.len() {
                assert(tokens[i].denom != denom);
            }
        }
        lemma_coin_position_is(after, denom, after.len() as int);
    }
}

/// Debiting a coin lowers the balance of its denomination by its amount and
/// leaves every other balance as it was.
pub proof fn lemma_debited_balance(tokens: Seq<CoinView>, coin: CoinView, denom: Seq<char>)
    requires
        debited(tokens, coin) is Ok,
    ensures
        balance(debited(tokens, coin)->Ok_0, denom) + amount_of(coin, denom) == balance(
            tokens,
            denom,
        ),
{
    let after = debited(tokens, coin)->Ok_0;
    let j = coin_position(tokens, denom);
    lemma_coin_position(tokens, coin.denom);
    lemma_coin_position(tokens, denom);
    assert forall|i: int| 0 <= i < j implies after[i].denom != denom by {
        assert(tokens[i].denom != denom);
    }
    lemma_coin_position_is(after, denom, j);
}

/// Crediting coins raises each balance by what the coins hold of its
/// denomination.
pub proof fn lemma_credited_all_balance(
    tokens: Seq<CoinView>,
    funds: Seq<CoinView>,
    denom: Seq<char>,
)
    ensures
        balance(credited_all(tokens, funds), denom) == balance(tokens, denom) + sum_of(
            funds,
            denom,
        ),
    decreases funds.len(),
{
    if funds.len() > 0 {
        lemma_credited_all_balance(tokens, funds.drop_last(), denom);
        lemma_credited_balance(credited_all(tokens, funds.drop_last()), funds.last(), denom);
    }
}

/// Debiting coins lowers each balance by what the coins hold of its
/// denomination.
pub proof fn lemma_debited_all_balance(
    tokens: Seq<CoinView>,
    requests: Seq<CoinView>,
    denom: Seq<char>,
)
    requires
        debited_all(tokens, requests) is Ok,
    ensures
        balance(debited_all(tokens, requests)->Ok_0, denom) + sum_of(requests, denom) == balance(
            tokens,
            denom,
        ),
    decreases requests.len(),
{
    if requests.len() > 0 {
        lemma_debited_all_balance(tokens, requests.drop_last(), denom);
        lemma_debited_balance(
            debited_all(tokens, requests.drop_last())->Ok_0,
            requests.last(),
            denom,
        );
    }
}

/// A request for more than is tracked has the whole withdrawal refused.
pub proof fn lemma_overdraft_refused(tokens: Seq<CoinView>, requests: Seq<CoinView>, i: int)
    requires
        0 <= i < requests.len(),
        requests[i].amount > balance(tokens, requests[i].denom),
    ensures
        debited_all(tokens, requests) is Err,
    decreases requests.len(),
{
    let rest = requests.drop_last();
    if i < requests.len() - 1 {
        lemma_overdraft_refused(tokens, rest, i);
    } else if debited_all(tokens, rest) is Ok {
        lemma_debited_all_balance(tokens, rest, requests[i].denom);
        lemma_coin_position(debited_all(tokens, rest)->Ok_0, requests[i].denom);
    }
}

/// Crediting coins that fit keeps every amount within 128 bits.
pub proof fn lemma_credited_all_fits(tokens: Seq<CoinView>, funds: Seq<CoinView>)
    requires
        amounts_fit(tokens),
        credit_fits(tokens, funds),
    ensures
        amounts_fit(credited_all(tokens, funds)),
    decreases funds.len(),
{
    if funds.len() > 0 {
        let before = credited_all(tokens, funds.drop_last());
        lemma_credited_all_fits(tokens, funds.drop_last());
        lemma_coin_position(before, funds.last().denom);
        let after = credited(before, funds.last());
        assert forall|i: int| 0 <= i < after.len() implies #[trigger] after[i].amount
            <= u128::MAX by {
            if i < before.len() {
                assert(before[i].amount <= u128::MAX);
            }
        }
    }
}

/// Debiting coins keeps every amount within 128 bits.
pub proof fn lemma_debited_all_fits(tokens: Seq<CoinView>, requests: Seq<CoinView>)
    requires
        amounts_fit(tokens),
        debited_all(tokens, requests) is Ok,
    ensures
        amounts_fit(debited_all(tokens, requests)->Ok_0),
    decreases requests.len(),
{
    if requests.len() > 0 {
        let before = debited_all(tokens, requests.drop_last())->Ok_0;
        lemma_debited_all_fits(tokens, requests.drop_last());
        let after = debited(before, requests.last())->Ok_0;
        assert forall|i: int| 0 <= i < after.len() implies #[trigger] after[i].amount
            <= u128::MAX by {
            assert(before[i].amount <= u128::MAX);
        }
    }
}

} // verus!
