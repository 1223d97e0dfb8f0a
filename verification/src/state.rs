//! The records kept for each owner, and the models that the contracts speak of.
//!
//! Every executable type has a view made of sequences and natural numbers.
//! Addresses and denominations are texts; an address is taken to be one that
//! the host has already resolved.

use vstd::prelude::*;

verus! {

/// The renewal interval of a will that was never given one: a year, in seconds.
pub const DEFAULT_RENEWAL_RATE: u128 = 31_536_000;

/// Model of a [`Coin`].
pub struct CoinView {
    pub denom: Seq<char>,
    pub amount: nat,
}

/// Model of a [`Recipient`].
pub struct RecipientView {
    pub address: Seq<char>,
    pub percentage: nat,
}

/// Model of a [`Will`].
pub struct WillView {
    pub owner: Seq<char>,
    pub recipients: Seq<RecipientView>,
    pub timestamp: nat,
    pub renewal_rate: nat,
    pub tokens: Seq<CoinView>,
}

/// The position of the first coin of `denom` in `tokens`, or `tokens.len()`
/// where no coin has that denomination.
pub open spec fn coin_position(tokens: Seq<CoinView>, denom: Seq<char>) -> int
    decreases tokens.len(),
{
    if tokens.len() == 0 {
        0
    } else if tokens.first().denom == denom {
        0
    } else {
        1 + coin_position(tokens.drop_first(), denom)
    }
}

/// The amount tracked under `denom`: zero where the denomination is untracked.
pub open spec fn balance(tokens: Seq<CoinView>, denom: Seq<char>) -> nat {
    let i = coin_position(tokens, denom);
    if 0 <= i < tokens.len() {
        tokens[i].amount
    } else {
        0
    }
}

/// Whether `recipients` names `address`.
pub open spec fn names(recipients: Seq<RecipientView>, address: Seq<char>) -> bool {
    exists|i: int| 0 <= i < recipients.len() && #[trigger] recipients[i].address == address
}

/// The sum of the percentages of `recipients`.
pub open spec fn total_percentage(recipients: Seq<RecipientView>) -> nat
    decreases recipients.len(),
{
    if recipients.len() == 0 {
        0
    } else {
        total_percentage(recipients.drop_last()) + recipients.last().percentage
    }
}

/// No denomination is tracked twice.
pub open spec fn distinct_denoms(tokens: Seq<CoinView>) -> bool {
    forall|i: int, j: int| 0 <= i < j < tokens.len() ==> tokens[i].denom != tokens[j].denom
}

/// No address is named twice.
pub open spec fn distinct_addresses(recipients: Seq<RecipientView>) -> bool {
    forall|i: int, j: int|
        0 <= i < j < recipients.len() ==> recipients[i].address != recipients[j].address
}

/// No share exceeds one hundred percent.
pub open spec fn bounded_shares(recipients: Seq<RecipientView>) -> bool {
    forall|i: int| 0 <= i < recipients.len() ==> #[trigger] recipients[i].percentage <= 100
}

/// Every amount fits 128 bits.
pub open spec fn amounts_fit(tokens: Seq<CoinView>) -> bool {
    forall|i: int| 0 <= i < tokens.len() ==> #[trigger] tokens[i].amount <= u128::MAX
}

impl WillView {
    /// What every stored will satisfies: each recipient is named once with a
    /// share of at most one hundred percent, each denomination is tracked
    /// once, and every number fits 128 bits.
    pub open spec fn wf(self) -> bool {
        &&& distinct_addresses(self.recipients)
        &&& bounded_shares(self.recipients)
        &&& distinct_denoms(self.tokens)
        &&& amounts_fit(self.tokens)
        &&& self.timestamp <= u128::MAX
        &&& self.renewal_rate <= u128::MAX
    }

    /// The will of an owner who has none yet: nothing held, nobody named,
    /// alive since `now`, to be renewed within `interval`.
    pub open spec fn fresh(owner: Seq<char>, now: nat, interval: nat) -> WillView {
        WillView {
            owner,
            recipients: Seq::empty(),
            timestamp: now,
            renewal_rate: interval,
            tokens: Seq::empty(),
        }
    }
}

/// An amount of one fungible denomination.
#[derive(Debug, PartialEq, Eq)]
pub struct Coin {
    pub denom: String,
    pub amount: u128,
}

impl View for Coin {
    type V = CoinView;

    open spec fn view(&self) -> CoinView {
        CoinView { denom: self.denom@, amount: self.amount as nat }
    }
}

impl DeepView for Coin {
    type V = CoinView;

    open spec fn deep_view(&self) -> CoinView {
        self@
    }
}

impl Clone for Coin {
    fn clone(&self) -> (res: Self)
        ensures
            res@ == self@,
    {
        Coin { denom: self.denom.clone(), amount: self.amount }
    }
}

/// An address named in a will, with its share of the eventual distribution.
#[derive(Debug, PartialEq, Eq)]
pub struct Recipient {
    pub address: String,
    pub percentage: u128,
}

impl View for Recipient {
    type V = RecipientView;

    open spec fn view(&self) -> RecipientView {
        RecipientView { address: self.address@, percentage: self.percentage as nat }
    }
}

impl DeepView for Recipient {
    type V = RecipientView;

    open spec fn deep_view(&self) -> RecipientView {
        self@
    }
}

impl Clone for Recipient {
    fn clone(&self) -> (res: Self)
        ensures
            res@ == self@,
    {
        Recipient { address: self.address.clone(), percentage: self.percentage }
    }
}

/// A recipient as an owner submits it, before the submission is accepted.
#[derive(Debug, PartialEq, Eq)]
pub struct UnparsedRecipient {
    pub address: String,
    pub percentage: u128,
}

impl View for UnparsedRecipient {
    type V = RecipientView;

    open spec fn view(&self) -> RecipientView {
        RecipientView { address: self.address@, percentage: self.percentage as nat }
    }
}

impl DeepView for UnparsedRecipient {
    type V = RecipientView;

    open spec fn deep_view(&self) -> RecipientView {
        self@
    }
}

impl Clone for UnparsedRecipient {
    fn clone(&self) -> (res: Self)
        ensures
            res@ == self@,
    {
        UnparsedRecipient { address: self.address.clone(), percentage: self.percentage }
    }
}

/// The configuration recorded once, when the engine is set up.
#[derive(Debug, PartialEq, Eq)]
pub struct State {
    pub admin: String,
}

impl View for State {
    type V = Seq<char>;

    open spec fn view(&self) -> Seq<char> {
        self.admin@
    }
}

impl Clone for State {
    fn clone(&self) -> (res: Self)
        ensures
            res@ == self@,
    {
        State { admin: self.admin.clone() }
    }
}

/// The custodial record of one owner.
#[derive(Debug, PartialEq, Eq)]
pub struct Will {
    pub owner: String,
    pub recipients: Vec<Recipient>,
    pub timestamp: u128,
    pub renewal_rate: u128,
    pub tokens: Vec<Coin>,
}

impl View for Will {
    type V = WillView;

    open spec fn view(&self) -> WillView {
        WillView {
            owner: self.owner@,
            recipients: self.recipients.deep_view(),
            timestamp: self.timestamp as nat,
            renewal_rate: self.renewal_rate as nat,
            tokens: self.tokens.deep_view(),
        }
    }
}

impl DeepView for Will {
    type V = WillView;

    open spec fn deep_view(&self) -> WillView {
        self@
    }
}

/// Copies a list of coins.
pub fn clone_coins(coins: &Vec<Coin>) -> (res: Vec<Coin>)
    ensures
        res.deep_view() == coins.deep_view(),
{
    let mut res: Vec<Coin> = Vec::new();
    let mut i: usize = 0;
    while i < coins.len()
        invariant
            i <= coins.len(),
            res.len() == i,
            forall|j: int| 0 <= j < i ==> res[j]@ == coins[j]@,
        decreases coins.len() - i,
    {
        res.push(coins[i].clone());
        i += 1;
    }
    assert(res.deep_view() =~= coins.deep_view());
    res
}

/// Copies a list of recipients.
pub fn clone_recipients(recipients: &Vec<Recipient>) -> (res: Vec<Recipient>)
    ensures
        res.deep_view() == recipients.deep_view(),
{
    let mut res: Vec<Recipient> = Vec::new();
    let mut i: usize = 0;
    while i < recipients.len()
        invariant
            i <= recipients.len(),
            res.len() == i,
            forall|j: int| 0 <= j < i ==> res[j]@ == recipients[j]@,
        decreases recipients.len() - i,
    {
        res.push(recipients[i].clone());
        i += 1;
    }
    assert(res.deep_view() =~= recipients.deep_view());
    res
}

impl Clone for Will {
    fn clone(&self) -> (res: Self)
        ensures
            res@ == self@,
    {
        Will {
            owner: self.owner.clone(),
            recipients: clone_recipients(&self.recipients),
            timestamp: self.timestamp,
            renewal_rate: self.renewal_rate,
            tokens: clone_coins(&self.tokens),
        }
    }
}

/// Whether no denomination is tracked twice.
pub fn has_distinct_denoms(tokens: &Vec<Coin>) -> (res: bool)
    ensures
        res == distinct_denoms(tokens.deep_view()),
{
    let ghost all = tokens.deep_view();
    let mut i: usize = 0;
    while i < tokens.len()
        invariant
            i <= tokens.len(),
            all == tokens.deep_view(),
            forall|a: int, b: int| 0 <= a < b < i ==> all[a].denom != all[b].denom,
        decreases tokens.len() - i,
    {
        let mut j: usize = 0;
        while j < i
            invariant
                j <= i < tokens.len(),
                all == tokens.deep_view(),
                forall|a: int| 0 <= a < j ==> all[a].denom != all[i as int].denom,
            decreases i - j,
        {
            if tokens[j].denom == tokens[i].denom {
                assert(all[j as int].denom == all[i as int].denom);
                return false;
            }
            j += 1;
        }
        i += 1;
    }
    true
}

/// Whether no address is named twice and no share exceeds one hundred.
pub fn has_sound_recipients(recipients: &Vec<Recipient>) -> (res: bool)
    ensures
        res == (distinct_addresses(recipients.deep_view()) && bounded_shares(
            recipients.deep_view(),
        )),
{
    let ghost all = recipients.deep_view();
    let mut i: usize = 0;
    while i < recipients.len()
        invariant
            i <= recipients.len(),
            all == recipients.deep_view(),
            forall|a: int, b: int| 0 <= a < b < i ==> all[a].address != all[b].address,
            forall|a: int| 0 <= a < i ==> #[trigger] all[a].percentage <= 100,
        decreases recipients.len() - i,
    {
        if recipients[i].percentage > 100 {
            assert(all[i as int].percentage > 100);
            return false;
        }
        let mut j: usize = 0;
        while j < i
            invariant
                j <= i < recipients.len(),
                all == recipients.deep_view(),
                forall|a: int| 0 <= a < j ==> all[a].address != all[i as int].address,
            decreases i - j,
        {
            if recipients[j].address == recipients[i].address {
                assert(all[j as int].address == all[i as int].address);
                return false;
            }
            j += 1;
        }
        i += 1;
    }
    true
}

impl Will {
    /// Whether the will is well formed: whether it may be kept.
    pub fn is_valid(&self) -> (res: bool)
        ensures
            res == self@.wf(),
    {
        has_sound_recipients(&self.recipients) && has_distinct_denoms(&self.tokens)
    }

    /// The will of an owner who has none yet.
    pub fn fresh(owner: String, now: u64, interval: u128) -> (res: Will)
        ensures
            res@ == WillView::fresh(owner@, now as nat, interval as nat),
            res@.wf(),
    {
        let res = Will {
            owner,
            recipients: Vec::new(),
            timestamp: now as u128,
            renewal_rate: interval,
            tokens: Vec::new(),
        };
        assert(res.recipients.deep_view() =~= Seq::<RecipientView>::empty());
        assert(res.tokens.deep_view() =~= Seq::<CoinView>::empty());
        res
    }
}

} // verus!
