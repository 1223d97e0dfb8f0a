//! What holds of the engine, whatever the state and the inputs.
//!
//! Each statement is about the transitions of [`crate::model`], which the
//! operations of [`crate::contract`] are proved to compute.

use crate::contract::executed;
use crate::distribution::{dust, lemma_shares_add_up, lemma_transfers_of_denom, remainders, sent};
use crate::error::ErrorView;
use crate::host::{Env, MessageInfo, ResponseView};
use crate::index::{
    clear_of, lemma_dismissed_all_clears, lemma_dismissed_all_elsewhere,
    lemma_dismissed_all_local, lemma_dismissed_all_only, lemma_dismissed_all_set,
    lemma_enrolled_all_elsewhere, lemma_enrolled_all_enters, lemma_enrolled_all_keeps,
    lemma_enrolled_all_local, lemma_enrolled_all_only, lemma_enrolled_all_set, lists,
    same_entry,
};
use crate::model::{Outcome, StoreView};
use crate::msg::ExecuteMsg;
use crate::recipients::{
    all_resolved_by, displaced, entries_view, lemma_all_covered, lemma_merged_names,
    lemma_merged_total, lemma_merged_total_distinct, lemma_merged_wf,
    lemma_percentage_within_total, resolution, resolved_recipients, uncovered, EntryView,
    ResolvedView,
};
use crate::state::{
    balance, distinct_addresses, names, total_percentage, CoinView, Recipient, RecipientView,
    WillView, DEFAULT_RENEWAL_RATE,
};
use crate::tokens::{
    any_reserved, lemma_credited_all_balance, lemma_credited_all_distinct,
    lemma_credited_all_fits, lemma_debited_all_balance, lemma_debited_all_distinct,
    lemma_debited_all_fits, lemma_overdraft_refused, sum_of,
};
use vstd::prelude::*;

verus! {

/// A submission whose percentages do not add up to one hundred is refused,
/// and nothing changes.
pub proof fn rejected_submission_changes_nothing(
    store: StoreView,
    sender: Seq<char>,
    now: nat,
    submitted: Seq<RecipientView>,
)
    requires
        total_percentage(submitted) != 100,
    ensures
        store.set_recipients(sender, now, submitted).result == Err::<ResponseView, ErrorView>(
            ErrorView::InvalidRecipients,
        ),
        store.set_recipients(sender, now, submitted).store == store,
{
}

/// After an accepted submission, the percentages of the will add up to what
/// they added up to before and one hundred more, less the shares that the
/// merge displaced.
pub proof fn accepted_submission_total(
    store: StoreView,
    sender: Seq<char>,
    now: nat,
    submitted: Seq<RecipientView>,
)
    requires
        store.wf(),
        total_percentage(submitted) == 100,
    ensures
        store.set_recipients(sender, now, submitted).result is Ok,
        total_percentage(
            store.set_recipients(sender, now, submitted).store.wills[sender].recipients,
        )
            + displaced(store.will_of(sender, now).recipients, submitted) == total_percentage(
            store.will_of(sender, now).recipients,
        ) + 100,
{
    lemma_merged_total(store.will_of(sender, now).recipients, submitted);
}

/// After an accepted submission that names no address twice, the
/// percentages of the will add up to one hundred and the shares of the
/// recipients that the submission leaves alone.
pub proof fn accepted_submission_total_distinct(
    store: StoreView,
    sender: Seq<char>,
    now: nat,
    submitted: Seq<RecipientView>,
)
    requires
        store.wf(),
        total_percentage(submitted) == 100,
        distinct_addresses(submitted),
    ensures
        total_percentage(
            store.set_recipients(sender, now, submitted).store.wills[sender].recipients,
        )
            == 100 + uncovered(store.will_of(sender, now).recipients, submitted),
{
    lemma_merged_total_distinct(store.will_of(sender, now).recipients, submitted);
}

/// After an accepted submission that names each of its addresses once and
/// every recipient that the will named before, the percentages of the will
/// add up to exactly one hundred.
pub proof fn percentages_add_up_to_one_hundred(
    store: StoreView,
    sender: Seq<char>,
    now: nat,
    submitted: Seq<RecipientView>,
)
    requires
        store.wf(),
        total_percentage(submitted) == 100,
        distinct_addresses(submitted),
        forall|i: int|
            0 <= i < store.will_of(sender, now).recipients.len() ==> names(
                submitted,
                #[trigger] store.will_of(sender, now).recipients[i].address,
            ),
    ensures
        store.set_recipients(sender, now, submitted).result is Ok,
        total_percentage(
            store.set_recipients(sender, now, submitted).store.wills[sender].recipients,
        )
            == 100,
{
    lemma_merged_total_distinct(store.will_of(sender, now).recipients, submitted);
    lemma_all_covered(store.will_of(sender, now).recipients, submitted);
}

/// A submission drops no recipient: whoever the will named before an
/// accepted submission, it names after it.
pub proof fn recipients_are_never_dropped(
    store: StoreView,
    sender: Seq<char>,
    now: nat,
    submitted: Seq<RecipientView>,
    address: Seq<char>,
)
    requires
        store.set_recipients(sender, now, submitted).result is Ok,
        names(store.will_of(sender, now).recipients, address),
    ensures
        names(store.set_recipients(sender, now, submitted).store.wills[sender].recipients, address),
{
    lemma_merged_names(store.will_of(sender, now).recipients, submitted, address);
}

/// A deposit that is not refused raises the balance of each denomination by
/// what the funds hold of it.
pub proof fn deposit_raises_balances(
    store: StoreView,
    sender: Seq<char>,
    now: nat,
    funds: Seq<CoinView>,
    denom: Seq<char>,
)
    requires
        !any_reserved(funds),
    ensures
        store.deposit_tokens(sender, now, funds).result is Ok,
        balance(store.deposit_tokens(sender, now, funds).store.wills[sender].tokens, denom)
            == balance(store.will_of(sender, now).tokens, denom) + sum_of(funds, denom),
{
    lemma_credited_all_balance(store.will_of(sender, now).tokens, funds, denom);
}

/// A withdrawal that goes through lowers the balance of each denomination
/// by what the requests hold of it: no balance goes below zero.
pub proof fn withdrawal_lowers_balances(
    store: StoreView,
    sender: Seq<char>,
    requests: Seq<CoinView>,
    denom: Seq<char>,
)
    requires
        store.withdraw_tokens(sender, requests).result is Ok,
    ensures
        store.wills.contains_key(sender),
        balance(store.withdraw_tokens(sender, requests).store.wills[sender].tokens, denom)
            + sum_of(requests, denom) == balance(store.wills[sender].tokens, denom),
{
    lemma_debited_all_balance(store.wills[sender].tokens, requests, denom);
}

/// A deposit or a withdrawal, as `sender` may ask for one after the other.
pub enum LedgerRequest {
    /// The deposit of `funds` at the time `now`.
    Deposit { now: nat, funds: Seq<CoinView> },
    /// The withdrawal of `requests`.
    Withdraw { requests: Seq<CoinView> },
}

/// What `owner` holds of `denom`: nothing where the owner has no will.
pub open spec fn holdings(store: StoreView, owner: Seq<char>, denom: Seq<char>) -> nat {
    if store.wills.contains_key(owner) {
        balance(store.wills[owner].tokens, denom)
    } else {
        0
    }
}

/// The outcome of one deposit or withdrawal by `sender`.
pub open spec fn ledger_step(
    store: StoreView,
    sender: Seq<char>,
    request: LedgerRequest,
) -> Outcome {
    match request {
        LedgerRequest::Deposit { now, funds } => store.deposit_tokens(sender, now, funds),
        LedgerRequest::Withdraw { requests } => store.withdraw_tokens(sender, requests),
    }
}

/// The state after `sender` has asked for `requests`, one after the other.
pub open spec fn ledger_run(
    store: StoreView,
    sender: Seq<char>,
    requests: Seq<LedgerRequest>,
) -> StoreView
    decreases requests.len(),
{
    if requests.len() == 0 {
        store
    } else {
        ledger_step(ledger_run(store, sender, requests.drop_last()), sender, requests.last()).store
    }
}

/// What the deposits among `requests` that went through hold of `denom`.
pub open spec fn paid_in(
    store: StoreView,
    sender: Seq<char>,
    requests: Seq<LedgerRequest>,
    denom: Seq<char>,
) -> nat
    decreases requests.len(),
{
    if requests.len() == 0 {
        0
    } else {
        let before = ledger_run(store, sender, requests.drop_last());
        paid_in(store, sender, requests.drop_last(), denom) + match requests.last() {
            LedgerRequest::Deposit { now, funds } => if ledger_step(
                before,
                sender,
                requests.last(),
            ).result is Ok {
                sum_of(funds, denom)
            } else {
                0
            },
            LedgerRequest::Withdraw { requests } => 0,
        }
    }
}

/// What the withdrawals among `requests` that went through hold of `denom`.
pub open spec fn paid_out(
    store: StoreView,
    sender: Seq<char>,
    requests: Seq<LedgerRequest>,
    denom: Seq<char>,
) -> nat
    decreases requests.len(),
{
    if requests.len() == 0 {
        0
    } else {
        let before = ledger_run(store, sender, requests.drop_last());
        paid_out(store, sender, requests.drop_last(), denom) + match requests.last() {
            LedgerRequest::Deposit { now, funds } => 0,
            LedgerRequest::Withdraw { requests: asked } => if ledger_step(
                before,
                sender,
                requests.last(),
            ).result is Ok {
                sum_of(asked, denom)
            } else {
                0
            },
        }
    }
}

/// Whatever deposits and withdrawals an owner asks for, in whatever order:
/// what the owner holds of a denomination afterwards is what the owner held
/// before and what was paid in, less what was paid out. So no more is ever
/// paid out than was there, and no balance goes below zero.
pub proof fn balances_follow_the_ledger(
    store: StoreView,
    sender: Seq<char>,
    requests: Seq<LedgerRequest>,
    denom: Seq<char>,
)
    ensures
        holdings(ledger_run(store, sender, requests), sender, denom) + paid_out(
            store,
            sender,
            requests,
            denom,
        ) == holdings(store, sender, denom) + paid_in(store, sender, requests, denom),
    decreases requests.len(),
{
    if requests.len() > 0 {
        let before = ledger_run(store, sender, requests.drop_last());
        balances_follow_the_ledger(store, sender, requests.drop_last(), denom);
        match requests.last() {
            LedgerRequest::Deposit { now, funds } => {
                lemma_credited_all_balance(before.will_of(sender, now).tokens, funds, denom);
            },
            LedgerRequest::Withdraw { requests: asked } => {
                if before.withdraw_tokens(sender, asked).result is Ok {
                    lemma_debited_all_balance(before.wills[sender].tokens, asked, denom);
                }
            },
        }
    }
}

/// A withdrawal with a request for more than is tracked under its
/// denomination is refused, and nothing changes.
pub proof fn overdraft_changes_nothing(
    store: StoreView,
    sender: Seq<char>,
    requests: Seq<CoinView>,
    i: int,
)
    requires
        store.wills.contains_key(sender),
        0 <= i < requests.len(),
        requests[i].amount > balance(store.wills[sender].tokens, requests[i].denom),
    ensures
        store.withdraw_tokens(sender, requests).result is Err,
        store.withdraw_tokens(sender, requests).store == store,
{
    lemma_overdraft_refused(store.wills[sender].tokens, requests, i);
}

/// Whatever an operation is refused for, nothing changes.
pub proof fn refusal_changes_nothing(
    store: StoreView,
    sender: Seq<char>,
    now: nat,
    coins: Seq<CoinView>,
    entries: Seq<EntryView>,
    owner: ResolvedView,
)
    ensures
        store.deposit_tokens(sender, now, coins).result is Err ==> store.deposit_tokens(
            sender,
            now,
            coins,
        ).store == store,
        store.withdraw_tokens(sender, coins).result is Err ==> store.withdraw_tokens(
            sender,
            coins,
        ).store == store,
        store.set_recipients_resolved(sender, now, entries).result is Err
            ==> store.set_recipients_resolved(sender, now, entries).store == store,
        store.distribute_assets_resolved(owner, now).result is Err
            ==> store.distribute_assets_resolved(owner, now).store == store,
{
}

/// Of each denomination, a distribution sends no more than the will holds.
/// What is sent, what is dropped as dust and what rounding down leaves make
/// up the balance; where no share is rounded, what is not sent is the dust.
pub proof fn distribution_conserves(
    store: StoreView,
    owner: Seq<char>,
    now: nat,
    denom: Seq<char>,
)
    requires
        store.wf(),
        store.distribute_assets(owner, now).result is Ok,
        total_percentage(store.wills[owner].recipients) == 100,
    ensures
        ({
            let will = store.wills[owner];
            let held = balance(will.tokens, denom);
            let out = sent(store.distribute_assets(owner, now).result->Ok_0.messages, denom);
            &&& out <= held
            &&& 100 * (out + dust(will.recipients, held)) + remainders(will.recipients, held)
                == 100 * held
            &&& remainders(will.recipients, held) == 0 ==> held - out == dust(
                will.recipients,
                held,
            )
        }),
{
    let will = store.wills[owner];
    lemma_transfers_of_denom(will.recipients, will.tokens, denom);
    lemma_shares_add_up(will.recipients, balance(will.tokens, denom));
}

/// The distribution of an existing will is refused as not claimable exactly
/// while less than the renewal interval has passed since the last activity,
/// and goes through exactly from then on.
pub proof fn eligibility_is_a_matter_of_time(store: StoreView, owner: Seq<char>, now: nat)
    requires
        store.wills.contains_key(owner),
    ensures
        store.distribute_assets(owner, now).result == Err::<ResponseView, ErrorView>(
            ErrorView::NotClaimable,
        ) <==> now - store.wills[owner].timestamp
            < store.wills[owner].renewal_rate,
        store.distribute_assets(owner, now).result is Ok <==> now - store.wills[owner].timestamp
            >= store.wills[owner].renewal_rate,
{
}

/// After an accepted submission, the sender stands in the index under every
/// submitted address that the will did not name before.
pub proof fn new_recipients_are_indexed(
    store: StoreView,
    sender: Seq<char>,
    now: nat,
    submitted: Seq<RecipientView>,
    i: int,
)
    requires
        total_percentage(submitted) == 100,
        0 <= i < submitted.len(),
        !names(store.will_of(sender, now).recipients, submitted[i].address),
    ensures
        lists(
            store.set_recipients(sender, now, submitted).store.memberships,
            submitted[i].address,
            sender,
        ),
{
    lemma_enrolled_all_enters(
        store.memberships,
        store.will_of(sender, now).recipients,
        submitted,
        sender,
        i,
    );
}

/// After a distribution, every recipient of the distributed will has an
/// index entry, and the owner does not stand in it.
pub proof fn distribution_clears_the_index(store: StoreView, owner: Seq<char>, now: nat, i: int)
    requires
        store.distribute_assets(owner, now).result is Ok,
        0 <= i < store.wills[owner].recipients.len(),
    ensures
        clear_of(
            store.distribute_assets(owner, now).store.memberships,
            store.wills[owner].recipients[i].address,
            owner,
        ),
{
    lemma_dismissed_all_clears(store.memberships, store.wills[owner].recipients, owner, i);
}

/// A will is distributed once: after a distribution that went through, the
/// next one for the same owner is refused for want of a will.
pub proof fn distribution_happens_once(
    store: StoreView,
    owner: Seq<char>,
    now: nat,
    later: nat,
)
    requires
        store.distribute_assets(owner, now).result is Ok,
    ensures
        store.distribute_assets(owner, now).store.distribute_assets(owner, later).result == Err::<
            ResponseView,
            ErrorView,
        >(ErrorView::NonExistentWill),
        store.distribute_assets(owner, now).store.get_will(owner, later) == WillView::fresh(
            owner,
            later,
            DEFAULT_RENEWAL_RATE as nat,
        ),
{
}

/// A submission keeps the index in agreement with the wills, and each of
/// its entries a set.
pub proof fn submission_keeps_consistency(
    store: StoreView,
    sender: Seq<char>,
    now: nat,
    submitted: Seq<RecipientView>,
)
    requires
        store.consistent(),
    ensures
        store.set_recipients(sender, now, submitted).store.consistent(),
        store.set_valued() ==> store.set_recipients(sender, now, submitted).store.set_valued(),
{
    let after = store.set_recipients(sender, now, submitted).store;
    if total_percentage(submitted) == 100 {
        let before = store.will_of(sender, now).recipients;
        if store.set_valued() {
            assert forall|r: Seq<char>| #[trigger]
                lists(store.memberships, r, sender) implies names(before, r) by {
                assert(store.names_in_will(sender, r));
            }
            lemma_enrolled_all_set(store.memberships, before, submitted, sender);
        }
        assert forall|owner: Seq<char>, recipient: Seq<char>|
            after.names_in_will(owner, recipient) == lists(
                after.memberships,
                recipient,
                owner,
            ) by {
            assert(store.names_in_will(owner, recipient) == lists(
                store.memberships,
                recipient,
                owner,
            ));
            lemma_merged_names(before, submitted, recipient);
            if lists(store.memberships, recipient, owner) {
                lemma_enrolled_all_keeps(
                    store.memberships,
                    before,
                    submitted,
                    sender,
                    recipient,
                    owner,
                );
            }
            if lists(after.memberships, recipient, owner) {
                lemma_enrolled_all_only(
                    store.memberships,
                    before,
                    submitted,
                    sender,
                    recipient,
                    owner,
                );
            }
            if owner == sender && names(submitted, recipient) && !names(before, recipient) {
                let i = choose|i: int|
                    0 <= i < submitted.len() && #[trigger] submitted[i].address == recipient;
                lemma_enrolled_all_enters(store.memberships, before, submitted, sender, i);
            }
        }
    }
}

/// A distribution keeps the index in agreement with the wills, and each of
/// its entries a set.
pub proof fn distribution_keeps_consistency(store: StoreView, owner: Seq<char>, now: nat)
    requires
        store.consistent(),
    ensures
        store.distribute_assets(owner, now).store.consistent(),
        store.set_valued() ==> store.distribute_assets(owner, now).store.set_valued(),
{
    let after = store.distribute_assets(owner, now).store;
    if store.distribute_assets(owner, now).result is Ok {
        if store.set_valued() {
            lemma_dismissed_all_set(store.memberships, store.wills[owner].recipients, owner);
        }
        assert forall|o: Seq<char>, recipient: Seq<char>|
            after.names_in_will(o, recipient) == lists(after.memberships, recipient, o) by {
            assert(store.names_in_will(o, recipient) == lists(store.memberships, recipient, o));
            lemma_dismissed_all_only(
                store.memberships,
                store.wills[owner].recipients,
                owner,
                recipient,
                o,
            );
        }
    }
}

/// Renewing a will, setting its interval, depositing and withdrawing keep
/// the index in agreement with the wills, and so does setting up.
pub proof fn ledger_operations_keep_consistency(
    store: StoreView,
    sender: Seq<char>,
    now: nat,
    rate: nat,
    coins: Seq<CoinView>,
)
    requires
        store.consistent(),
    ensures
        store.instantiate(sender).store.consistent(),
        store.reset_timestamp(sender, now).store.consistent(),
        store.set_renewal_rate(sender, now, rate).store.consistent(),
        store.deposit_tokens(sender, now, coins).store.consistent(),
        store.withdraw_tokens(sender, coins).store.consistent(),
{
    let a = store.instantiate(sender).store;
    let b = store.reset_timestamp(sender, now).store;
    let c = store.set_renewal_rate(sender, now, rate).store;
    let d = store.deposit_tokens(sender, now, coins).store;
    let e = store.withdraw_tokens(sender, coins).store;
    assert forall|o: Seq<char>, r: Seq<char>|
        #![trigger a.names_in_will(o, r)]
        #![trigger lists(a.memberships, r, o)]
        a.names_in_will(o, r) == lists(a.memberships, r, o) by {
        assert(store.names_in_will(o, r) == lists(store.memberships, r, o));
    }
    assert forall|o: Seq<char>, r: Seq<char>|
        #![trigger b.names_in_will(o, r)]
        #![trigger lists(b.memberships, r, o)]
        b.names_in_will(o, r) == lists(b.memberships, r, o) by {
        assert(store.names_in_will(o, r) == lists(store.memberships, r, o));
    }
    assert forall|o: Seq<char>, r: Seq<char>|
        #![trigger c.names_in_will(o, r)]
        #![trigger lists(c.memberships, r, o)]
        c.names_in_will(o, r) == lists(c.memberships, r, o) by {
        assert(store.names_in_will(o, r) == lists(store.memberships, r, o));
    }
    assert forall|o: Seq<char>, r: Seq<char>|
        #![trigger d.names_in_will(o, r)]
        #![trigger lists(d.memberships, r, o)]
        d.names_in_will(o, r) == lists(d.memberships, r, o) by {
        assert(store.names_in_will(o, r) == lists(store.memberships, r, o));
    }
    assert forall|o: Seq<char>, r: Seq<char>|
        #![trigger e.names_in_will(o, r)]
        #![trigger lists(e.memberships, r, o)]
        e.names_in_will(o, r) == lists(e.memberships, r, o) by {
        assert(store.names_in_will(o, r) == lists(store.memberships, r, o));
    }
}

/// A request that went through has renewed the sender's will exactly if it
/// is one that renews: the will is then alive since the time of the request.
/// A withdrawal leaves the time of the last activity as it was.
pub proof fn liveness_is_renewed_as_flagged<A: Fn(&String) -> Result<String, String>>(
    api: A,
    before: StoreView,
    env: Env,
    info: MessageInfo,
    msg: ExecuteMsg,
    after: StoreView,
    result: Result<ResponseView, ErrorView>,
)
    requires
        executed(api, before, env, info, msg, after, result),
        result is Ok,
    ensures
        msg.renews() ==> after.wills.contains_key(info.sender@)
            && after.wills[info.sender@].timestamp == env.time,
        msg is WithdrawTokens ==> after.wills.contains_key(info.sender@)
            && after.wills[info.sender@].timestamp == before.wills[info.sender@].timestamp,
{
}

/// Every operation keeps the wills well formed: each under its owner, each
/// recipient named once with a share of at most one hundred, each
/// denomination tracked once, every number within 128 bits.
pub proof fn well_formedness_is_kept(
    store: StoreView,
    sender: Seq<char>,
    now: nat,
    rate: nat,
    coins: Seq<CoinView>,
    submitted: Seq<RecipientView>,
)
    requires
        store.wf(),
        now <= u64::MAX,
        rate <= u128::MAX,
    ensures
        store.instantiate(sender).store.wf(),
        store.reset_timestamp(sender, now).store.wf(),
        store.set_renewal_rate(sender, now, rate).store.wf(),
        store.set_recipients(sender, now, submitted).store.wf(),
        store.deposit_fits(sender, now, coins) ==> store.deposit_tokens(
            sender,
            now,
            coins,
        ).store.wf(),
        store.withdraw_tokens(sender, coins).store.wf(),
        store.distribute_assets(sender, now).store.wf(),
{
    let will = store.will_of(sender, now);
    assert(will.wf() && will.owner == sender);
    if total_percentage(submitted) == 100 {
        assert forall|i: int| 0 <= i < submitted.len() implies #[trigger] submitted[i].percentage
            <= 100 by {
            lemma_percentage_within_total(submitted, i);
        }
        lemma_merged_wf(will.recipients, submitted);
    }
    if store.deposit_fits(sender, now, coins) && !any_reserved(coins) {
        lemma_credited_all_distinct(will.tokens, coins);
        lemma_credited_all_fits(will.tokens, coins);
    }
    if store.withdraw_tokens(sender, coins).result is Ok {
        lemma_debited_all_distinct(will.tokens, coins);
        lemma_debited_all_fits(will.tokens, coins);
    }
}

/// Before anything is kept, the state is well formed, the index agrees with
/// the wills, and each of its entries is a set.
pub proof fn the_empty_state_is_sound()
    ensures
        (StoreView { wills: Map::empty(), memberships: Map::empty(), admin: None }).wf(),
        (StoreView { wills: Map::empty(), memberships: Map::empty(), admin: None }).consistent(),
        (StoreView { wills: Map::empty(), memberships: Map::empty(), admin: None }).set_valued(),
{
}

/// Whatever the request and whatever the host makes of its addresses, a
/// state that is well formed stays so, and an index that agrees with the
/// wills and holds a set of owners for each recipient keeps doing so.
pub proof fn every_request_keeps_the_state_sound<A: Fn(&String) -> Result<String, String>>(
    api: A,
    before: StoreView,
    env: Env,
    info: MessageInfo,
    msg: ExecuteMsg,
    after: StoreView,
    result: Result<ResponseView, ErrorView>,
)
    requires
        executed(api, before, env, info, msg, after, result),
        before.wf(),
        before.consistent(),
        before.set_valued(),
        msg is DepositTokens ==> before.deposit_fits(
            info.sender@,
            env.time as nat,
            info.funds.deep_view(),
        ),
    ensures
        after.wf(),
        after.consistent(),
        after.set_valued(),
{
    let sender = info.sender@;
    let now = env.time as nat;
    match msg {
        ExecuteMsg::ResetTimestamp {  } => {
            well_formedness_is_kept(before, sender, now, 0, Seq::empty(), Seq::empty());
            ledger_operations_keep_consistency(before, sender, now, 0, Seq::empty());
        },
        ExecuteMsg::DepositTokens {  } => {
            let funds = info.funds.deep_view();
            well_formedness_is_kept(before, sender, now, 0, funds, Seq::empty());
            ledger_operations_keep_consistency(before, sender, now, 0, funds);
        },
        ExecuteMsg::WithdrawTokens { tokens } => {
            let requests = tokens.deep_view();
            well_formedness_is_kept(before, sender, now, 0, requests, Seq::empty());
            ledger_operations_keep_consistency(before, sender, now, 0, requests);
        },
        ExecuteMsg::DistributeAssets { owner } => {
            let resolved = choose|resolved: Result<String, String>|
                call_ensures(api, (&owner,), resolved) && (Outcome { store: after, result })
                    == before.distribute_assets_resolved(resolution(resolved), now);
            if let Ok(address) = resolved {
                well_formedness_is_kept(before, address@, now, 0, Seq::empty(), Seq::empty());
                distribution_keeps_consistency(before, address@, now);
            }
        },
        ExecuteMsg::SetRecipients { recipients } => {
            let entries = choose|entries: Seq<Result<Recipient, String>>|
                all_resolved_by(api, recipients@, entries) && (Outcome { store: after, result })
                    == before.set_recipients_resolved(sender, now, entries_view(entries));
            let submitted = resolved_recipients(entries_view(entries));
            well_formedness_is_kept(before, sender, now, 0, Seq::empty(), submitted);
            submission_keeps_consistency(before, sender, now, submitted);
        },
        ExecuteMsg::SetRenewalRate { renewal_rate } => {
            well_formedness_is_kept(
                before,
                sender,
                now,
                renewal_rate as nat,
                Seq::empty(),
                Seq::empty(),
            );
            ledger_operations_keep_consistency(
                before,
                sender,
                now,
                renewal_rate as nat,
                Seq::empty(),
            );
        },
    }
}

/// A submission is local. Its answer, and the will that it leaves, depend
/// on the sender's will alone; what it leaves under a recipient depends on
/// that will and on what stood under that recipient. It leaves alone every
/// other will, and what stands under the recipients that it does not name.
/// So it may be carried out on a part of the state that holds the sender's
/// will and the entries of the submitted addresses.
pub proof fn a_submission_is_local(
    a: StoreView,
    b: StoreView,
    sender: Seq<char>,
    now: nat,
    submitted: Seq<RecipientView>,
    owner: Seq<char>,
    recipient: Seq<char>,
)
    requires
        a.same_will(b, sender),
    ensures
        a.set_recipients(sender, now, submitted).result == b.set_recipients(
            sender,
            now,
            submitted,
        ).result,
        a.set_recipients(sender, now, submitted).store.same_will(
            b.set_recipients(sender, now, submitted).store,
            sender,
        ),
        same_entry(a.memberships, b.memberships, recipient) ==> same_entry(
            a.set_recipients(sender, now, submitted).store.memberships,
            b.set_recipients(sender, now, submitted).store.memberships,
            recipient,
        ),
        owner != sender ==> a.set_recipients(sender, now, submitted).store.same_will(a, owner),
        !names(submitted, recipient) ==> same_entry(
            a.set_recipients(sender, now, submitted).store.memberships,
            a.memberships,
            recipient,
        ),
{
    let named = a.will_of(sender, now).recipients;
    if same_entry(a.memberships, b.memberships, recipient) {
        lemma_enrolled_all_local(a.memberships, b.memberships, named, submitted, sender, recipient);
    }
    if !names(submitted, recipient) {
        lemma_enrolled_all_elsewhere(a.memberships, named, submitted, sender, recipient);
    }
}

/// A distribution is local. Its answer depends on the owner's will alone;
/// what it leaves under a recipient depends on that will and on what stood
/// under that recipient. It leaves alone every other will, and what stands
/// under the recipients that the will does not name. So it may be carried
/// out on a part of the state that holds the owner's will and the entries
/// of the will's recipients.
pub proof fn a_distribution_is_local(
    a: StoreView,
    b: StoreView,
    owner: Seq<char>,
    now: nat,
    other: Seq<char>,
    recipient: Seq<char>,
)
    requires
        a.same_will(b, owner),
    ensures
        a.distribute_assets(owner, now).result == b.distribute_assets(owner, now).result,
        a.distribute_assets(owner, now).store.same_will(
            b.distribute_assets(owner, now).store,
            owner,
        ),
        same_entry(a.memberships, b.memberships, recipient) ==> same_entry(
            a.distribute_assets(owner, now).store.memberships,
            b.distribute_assets(owner, now).store.memberships,
            recipient,
        ),
        other != owner ==> a.distribute_assets(owner, now).store.same_will(a, other),
        !a.names_in_will(owner, recipient) ==> same_entry(
            a.distribute_assets(owner, now).store.memberships,
            a.memberships,
            recipient,
        ),
{
    if a.distribute_assets(owner, now).result is Ok {
        let named = a.wills[owner].recipients;
        if same_entry(a.memberships, b.memberships, recipient) {
            lemma_dismissed_all_local(a.memberships, b.memberships, named, owner, recipient);
        }
        if !names(named, recipient) {
            lemma_dismissed_all_elsewhere(a.memberships, named, owner, recipient);
        }
    }
}

/// Renewing a will, setting its interval, depositing and withdrawing are
/// local: the answer and the will that is left depend on the sender's will
/// alone, and every other will and the whole index are left alone.
pub proof fn ledger_operations_are_local(
    a: StoreView,
    b: StoreView,
    sender: Seq<char>,
    now: nat,
    rate: nat,
    coins: Seq<CoinView>,
    owner: Seq<char>,
)
    requires
        a.same_will(b, sender),
    ensures
        a.reset_timestamp(sender, now).result == b.reset_timestamp(sender, now).result,
        a.reset_timestamp(sender, now).store.same_will(
            b.reset_timestamp(sender, now).store,
            sender,
        ),
        a.set_renewal_rate(sender, now, rate).result == b.set_renewal_rate(
            sender,
            now,
            rate,
        ).result,
        a.set_renewal_rate(sender, now, rate).store.same_will(
            b.set_renewal_rate(sender, now, rate).store,
            sender,
        ),
        a.deposit_tokens(sender, now, coins).result == b.deposit_tokens(sender, now, coins).result,
        a.deposit_tokens(sender, now, coins).store.same_will(
            b.deposit_tokens(sender, now, coins).store,
            sender,
        ),
        a.withdraw_tokens(sender, coins).result == b.withdraw_tokens(sender, coins).result,
        a.withdraw_tokens(sender, coins).store.same_will(
            b.withdraw_tokens(sender, coins).store,
            sender,
        ),
        owner != sender ==> a.reset_timestamp(sender, now).store.same_will(a, owner)
            && a.set_renewal_rate(sender, now, rate).store.same_will(a, owner)
            && a.deposit_tokens(sender, now, coins).store.same_will(a, owner)
            && a.withdraw_tokens(sender, coins).store.same_will(a, owner),
        a.reset_timestamp(sender, now).store.memberships == a.memberships,
        a.set_renewal_rate(sender, now, rate).store.memberships == a.memberships,
        a.deposit_tokens(sender, now, coins).store.memberships == a.memberships,
        a.withdraw_tokens(sender, coins).store.memberships == a.memberships,
{
}

} // verus!
