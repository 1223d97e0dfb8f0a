//! The operations of the engine.
//!
//! Each operation works on the [`Store`] and computes the transition of the
//! same name in [`crate::model`]. A refused operation leaves the store as it
//! was.

use crate::distribution::plan_transfers;
use crate::error::{ContractError, ErrorView};
use crate::host::{Env, MessageInfo, Response, ResponseView, Transfer};
use crate::index::{dismissed_all, enrolled_all};
use crate::model::{Outcome, StoreView};
use crate::msg::{ExecuteMsg, InstantiateMsg, QueryMsg, QueryResponse};
use crate::recipients::{
    accept_recipients, all_resolved_by, entries_view, lemma_merged_one_wf,
    lemma_percentage_within_total, merge_one, merged, resolution, resolve_recipients,
};
use crate::state::{
    total_percentage, Coin, Recipient, RecipientView, State, UnparsedRecipient, Will, WillView,
    DEFAULT_RENEWAL_RATE,
};
use crate::store::Store;
use crate::tokens::{
    credit_all, credit_would_fit, debit_all, has_reserved, lemma_credited_all_distinct,
    lemma_debited_all_distinct,
};
use vstd::prelude::*;

verus! {

/// The answer of an operation, over models.
pub open spec fn answer(res: Result<Response, ContractError>) -> Result<ResponseView, ErrorView> {
    match res {
        Ok(response) => Ok(response@),
        Err(e) => Err(e@),
    }
}

/// Sets the engine up: the sender becomes the administrator.
pub fn instantiate(store: &mut Store, _env: Env, info: MessageInfo, _msg: InstantiateMsg) -> (res:
    Result<Response, ContractError>)
    requires
        old(store).wf(),
    ensures
        final(store).wf(),
        final(store)@ == old(store)@.instantiate(info.sender@).store,
        answer(res) == old(store)@.instantiate(info.sender@).result,
{
    store.state = Some(State { admin: info.sender.clone() });
    let response = Response::new().add_attribute("action", "instantiate").add_attribute(
        "owner_address",
        info.sender.as_str(),
    );
    assert(response@.attributes =~= old(store)@.instantiate(
        info.sender@,
    ).result->Ok_0.attributes);
    Ok(response)
}

/// Sets the interval within which the sender's will must be renewed, and
/// renews the will.
pub fn try_set_renewal_rate(
    store: &mut Store,
    env: Env,
    info: MessageInfo,
    new_renewal_rate: u128,
) -> (res: Result<Response, ContractError>)
    requires
        old(store).wf(),
    ensures
        final(store).wf(),
        final(store)@ == old(store)@.set_renewal_rate(
            info.sender@,
            env.time as nat,
            new_renewal_rate as nat,
        ).store,
        answer(res) == old(store)@.set_renewal_rate(
            info.sender@,
            env.time as nat,
            new_renewal_rate as nat,
        ).result,
{
    let mut will = store.wills.load_or_default(&info.sender, env.time, DEFAULT_RENEWAL_RATE);
    will.renewal_rate = new_renewal_rate;
    will.timestamp = env.time as u128;
    store.wills.save(will);
    let response = Response::new().add_attribute("action", "set_renewal_rate");
    assert(response@.attributes =~= ResponseView::note(
        "action"@,
        "set_renewal_rate"@,
    ).attributes);
    Ok(response)
}

/// Renews the sender's will.
pub fn try_reset_timestamp(store: &mut Store, env: Env, info: MessageInfo) -> (res: Result<
    Response,
    ContractError,
>)
    requires
        old(store).wf(),
    ensures
        final(store).wf(),
        final(store)@ == old(store)@.reset_timestamp(info.sender@, env.time as nat).store,
        answer(res) == old(store)@.reset_timestamp(info.sender@, env.time as nat).result,
{
    let mut will = store.wills.load_or_default(&info.sender, env.time, DEFAULT_RENEWAL_RATE);
    will.timestamp = env.time as u128;
    store.wills.save(will);
    let response = Response::new().add_attribute("action", "reset_timestamp");
    assert(response@.attributes =~= ResponseView::note(
        "action"@,
        "reset_timestamp"@,
    ).attributes);
    Ok(response)
}

/// Takes a submission whose addresses the host has resolved. The first
/// refusal of the host is handed on, and a submission whose percentages do
/// not add up to one hundred is refused. Otherwise the recipients are merged
/// into the sender's will, the sender is entered in the index under each
/// address that is new to the will, and the will is renewed.
pub fn set_recipients(
    store: &mut Store,
    env: Env,
    info: MessageInfo,
    entries: Vec<Result<Recipient, String>>,
) -> (res: Result<Response, ContractError>)
    requires
        old(store).wf(),
    ensures
        final(store).wf(),
        final(store)@ == old(store)@.set_recipients_resolved(
            info.sender@,
            env.time as nat,
            entries_view(entries@),
        ).store,
        answer(res) == old(store)@.set_recipients_resolved(
            info.sender@,
            env.time as nat,
            entries_view(entries@),
        ).result,
{
    let mut will = store.wills.load_or_default(&info.sender, env.time, DEFAULT_RENEWAL_RATE);
    let accepted = match accept_recipients(&entries) {
        Ok(accepted) => accepted,
        Err(e) => {
            return Err(e);
        },
    };
    let ghost submitted = accepted.deep_view();
    let ghost named = will@.recipients;
    let ghost index = store.memberships@;
    let mut i: usize = 0;
    assert(submitted.take(0) =~= Seq::<RecipientView>::empty());
    while i < accepted.len()
        invariant
            i <= accepted.len(),
            store.wills == old(store).wills,
            store.state == old(store).state,
            store.memberships.wf(),
            accepted.deep_view() == submitted,
            total_percentage(submitted) == 100,
            will@ == (WillView {
                recipients: will@.recipients,
                ..old(store)@.will_of(info.sender@, env.time as nat)
            }),
            will@.wf(),
            will@.recipients == merged(named, submitted.take(i as int)),
            store.memberships@ == enrolled_all(
                index,
                named,
                submitted.take(i as int),
                info.sender@,
            ),
        decreases accepted.len() - i,
    {
        proof {
            assert(submitted.take(i as int + 1).drop_last() =~= submitted.take(i as int));
            assert(submitted.take(i as int + 1).last() == accepted[i as int]@);
            lemma_percentage_within_total(submitted, i as int);
            lemma_merged_one_wf(will@.recipients, accepted[i as int]@);
        }
        let added = merge_one(&mut will.recipients, &accepted[i]);
        if added {
            store.memberships.enroll(&accepted[i].address, &info.sender);
        }
        i += 1;
    }
    assert(submitted.take(accepted.len() as int) =~= submitted);
    will.timestamp = env.time as u128;
    store.wills.save(will);
    let response = Response::new().add_attribute("action", "set_recipients");
    assert(response@.attributes =~= ResponseView::note("action"@, "set_recipients"@).attributes);
    Ok(response)
}

/// Has `api` resolve the address of each submitted recipient, and takes the
/// submission as it was resolved: see [`set_recipients`].
pub fn try_set_recipients<A: Fn(&String) -> Result<String, String>>(
    store: &mut Store,
    api: &A,
    env: Env,
    info: MessageInfo,
    new_recipients: Vec<UnparsedRecipient>,
) -> (res: Result<Response, ContractError>)
    requires
        old(store).wf(),
        forall|text: &String| call_requires(*api, (text,)),
    ensures
        final(store).wf(),
        exists|entries: Seq<Result<Recipient, String>>|
            all_resolved_by(*api, new_recipients@, entries) && final(store)@ == old(
                store,
            )@.set_recipients_resolved(info.sender@, env.time as nat, entries_view(entries)).store
                && answer(res) == old(store)@.set_recipients_resolved(
                info.sender@,
                env.time as nat,
                entries_view(entries),
            ).result,
{
    let entries = resolve_recipients(api, &new_recipients);
    let ghost resolved = entries@;
    let res = set_recipients(store, env, info, entries);
    proof {
        assert(all_resolved_by(*api, new_recipients@, resolved));
    }
    res
}

/// Whether the deposit of the funds that come with the call keeps every
/// balance of the sender within 128 bits, where it is not refused anyway.
pub fn deposit_fits(store: &Store, env: Env, info: &MessageInfo) -> (res: bool)
    requires
        store.wf(),
    ensures
        res == store@.deposit_fits(info.sender@, env.time as nat, info.funds.deep_view()),
{
    if has_reserved(&info.funds) {
        return true;
    }
    let will = store.wills.load_or_default(&info.sender, env.time, DEFAULT_RENEWAL_RATE);
    credit_would_fit(&will.tokens, &info.funds)
}

/// Credits the funds that come with the call to the sender's will, and
/// renews the will. Funds of the reserved denomination are refused.
pub fn try_deposit_tokens(store: &mut Store, env: Env, info: MessageInfo) -> (res: Result<
    Response,
    ContractError,
>)
    requires
        old(store).wf(),
        old(store)@.deposit_fits(info.sender@, env.time as nat, info.funds.deep_view()),
    ensures
        final(store).wf(),
        final(store)@ == old(store)@.deposit_tokens(
            info.sender@,
            env.time as nat,
            info.funds.deep_view(),
        ).store,
        answer(res) == old(store)@.deposit_tokens(
            info.sender@,
            env.time as nat,
            info.funds.deep_view(),
        ).result,
{
    if has_reserved(&info.funds) {
        return Err(ContractError::InvalidTokenDenom {  });
    }
    let mut will = store.wills.load_or_default(&info.sender, env.time, DEFAULT_RENEWAL_RATE);
    proof {
        lemma_credited_all_distinct(will@.tokens, info.funds.deep_view());
    }
    credit_all(&mut will.tokens, &info.funds);
    will.timestamp = env.time as u128;
    store.wills.save(will);
    let response = Response::new().add_attribute("action", "deposit_tokens");
    assert(response@.attributes =~= ResponseView::note("action"@, "deposit_tokens"@).attributes);
    Ok(response)
}

/// Debits `tokens` from the sender's will and orders them sent to the
/// sender. The will is not renewed. Refused where the sender has no will,
/// where a coin is of the reserved denomination, and where a coin asks for
/// more than is tracked.
pub fn try_withdraw_tokens(
    store: &mut Store,
    _env: Env,
    info: MessageInfo,
    tokens: Vec<Coin>,
) -> (res: Result<Response, ContractError>)
    requires
        old(store).wf(),
    ensures
        final(store).wf(),
        final(store)@ == old(store)@.withdraw_tokens(info.sender@, tokens.deep_view()).store,
        answer(res) == old(store)@.withdraw_tokens(info.sender@, tokens.deep_view()).result,
{
    let mut will = match store.wills.load(&info.sender) {
        Some(will) => will,
        None => {
            return Err(ContractError::NonExistentWill {  });
        },
    };
    proof {
        store.wills.lemma_wf();
    }
    let ghost held = will@.tokens;
    match debit_all(&mut will.tokens, &tokens) {
        Ok(_) => {},
        Err(e) => {
            return Err(e);
        },
    }
    proof {
        lemma_debited_all_distinct(held, tokens.deep_view());
    }
    store.wills.save(will);
    let response = Response::new().add_attribute("action", "withdraw_tokens").add_message(
        Transfer { to_address: info.sender.clone(), amount: tokens },
    );
    proof {
        let expected = old(store)@.withdraw_tokens(info.sender@, tokens.deep_view()).result->Ok_0;
        assert(response@.attributes =~= expected.attributes);
        assert(response@.messages =~= expected.messages);
    }
    Ok(response)
}

/// Distributes the will of an owner whose address the host has resolved. A
/// refusal of the host is handed on. Refused too where the owner has no
/// will, and where the renewal interval has not lapsed. Otherwise it orders
/// the transfers that split the balances among the recipients, deletes the
/// will, and strikes the owner from the index entry of each recipient.
pub fn distribute_assets(store: &mut Store, env: Env, resolved: Result<String, String>) -> (res:
    Result<Response, ContractError>)
    requires
        old(store).wf(),
    ensures
        final(store).wf(),
        final(store)@ == old(store)@.distribute_assets_resolved(
            resolution(resolved),
            env.time as nat,
        ).store,
        answer(res) == old(store)@.distribute_assets_resolved(
            resolution(resolved),
            env.time as nat,
        ).result,
{
    let owner = match resolved {
        Ok(owner) => owner,
        Err(why) => {
            return Err(ContractError::Std(why));
        },
    };
    let will = match store.wills.load(&owner) {
        Some(will) => will,
        None => {
            return Err(ContractError::NonExistentWill {  });
        },
    };
    proof {
        store.wills.lemma_wf();
    }
    let now: u128 = env.time as u128;
    if now < will.timestamp || now - will.timestamp < will.renewal_rate {
        return Err(ContractError::NotClaimable {  });
    }
    let plan = plan_transfers(&will.recipients, &will.tokens);
    store.wills.delete(&owner);
    let ghost named = will@.recipients;
    let ghost index = store.memberships@;
    let mut i: usize = 0;
    assert(named.take(0) =~= Seq::<RecipientView>::empty());
    while i < will.recipients.len()
        invariant
            i <= will.recipients.len(),
            store.wills.wf(),
            store.wills@ == old(store).wills@.remove(owner@),
            store.state == old(store).state,
            store.memberships.wf(),
            named == will.recipients.deep_view(),
            store.memberships@ == dismissed_all(index, named.take(i as int), owner@),
        decreases will.recipients.len() - i,
    {
        proof {
            assert(named.take(i as int + 1).drop_last() =~= named.take(i as int));
            assert(named.take(i as int + 1).last() == will.recipients[i as int]@);
        }
        store.memberships.dismiss(&will.recipients[i].address, &owner);
        i += 1;
    }
    assert(named.take(will.recipients.len() as int) =~= named);
    let response = Response::new().add_attribute("method", "distribute_assets").add_messages(
        plan,
    );
    proof {
        let expected = old(store)@.distribute_assets(owner@, env.time as nat).result->Ok_0;
        assert(response@.attributes =~= expected.attributes);
        assert(response@.messages =~= expected.messages);
    }
    Ok(response)
}

/// Has `api` resolve the address of `owner`, and distributes the owner's will:
/// see [`distribute_assets`]. Anyone may ask for it.
pub fn try_distribute_assets<A: Fn(&String) -> Result<String, String>>(
    store: &mut Store,
    api: &A,
    env: Env,
    _info: MessageInfo,
    owner: String,
) -> (res: Result<Response, ContractError>)
    requires
        old(store).wf(),
        forall|text: &String| call_requires(*api, (text,)),
    ensures
        final(store).wf(),
        exists|resolved: Result<String, String>|
            call_ensures(*api, (&owner,), resolved) && final(store)@ == old(
                store,
            )@.distribute_assets_resolved(resolution(resolved), env.time as nat).store && answer(
                res,
            ) == old(store)@.distribute_assets_resolved(
                resolution(resolved),
                env.time as nat,
            ).result,
{
    let resolved = api(&owner);
    let ghost outcome = resolved;
    let res = distribute_assets(store, env, resolved);
    proof {
        assert(call_ensures(*api, (&owner,), outcome));
    }
    res
}

/// Whether a request, carried out with `api` to resolve addresses, led from
/// the state `before` to the state `after` with the answer `result`.
pub open spec fn executed<A: Fn(&String) -> Result<String, String>>(
    api: A,
    before: StoreView,
    env: Env,
    info: MessageInfo,
    msg: ExecuteMsg,
    after: StoreView,
    result: Result<ResponseView, ErrorView>,
) -> bool {
    let sender = info.sender@;
    let now = env.time as nat;
    let outcome = Outcome { store: after, result };
    match msg {
        ExecuteMsg::ResetTimestamp {  } => outcome == before.reset_timestamp(sender, now),
        ExecuteMsg::DepositTokens {  } => outcome == before.deposit_tokens(
            sender,
            now,
            info.funds.deep_view(),
        ),
        ExecuteMsg::WithdrawTokens { tokens } => outcome == before.withdraw_tokens(
            sender,
            tokens.deep_view(),
        ),
        ExecuteMsg::DistributeAssets { owner } => exists|resolved: Result<String, String>|
            call_ensures(api, (&owner,), resolved) && outcome == before.distribute_assets_resolved(
                resolution(resolved),
                now,
            ),
        ExecuteMsg::SetRecipients { recipients } => exists|
            entries: Seq<Result<Recipient, String>>,
        |
            all_resolved_by(api, recipients@, entries) && outcome
                == before.set_recipients_resolved(sender, now, entries_view(entries)),
        ExecuteMsg::SetRenewalRate { renewal_rate } => outcome == before.set_renewal_rate(
            sender,
            now,
            renewal_rate as nat,
        ),
    }
}

/// Carries out a request.
pub fn execute<A: Fn(&String) -> Result<String, String>>(
    store: &mut Store,
    api: &A,
    env: Env,
    info: MessageInfo,
    msg: ExecuteMsg,
) -> (res: Result<Response, ContractError>)
    requires
        old(store).wf(),
        forall|text: &String| call_requires(*api, (text,)),
        msg is DepositTokens ==> old(store)@.deposit_fits(
            info.sender@,
            env.time as nat,
            info.funds.deep_view(),
        ),
    ensures
        final(store).wf(),
        executed(*api, old(store)@, env, info, msg, final(store)@, answer(res)),
{
    match msg {
        ExecuteMsg::ResetTimestamp {  } => try_reset_timestamp(store, env, info),
        ExecuteMsg::DepositTokens {  } => try_deposit_tokens(store, env, info),
        ExecuteMsg::WithdrawTokens { tokens } => try_withdraw_tokens(store, env, info, tokens),
        ExecuteMsg::DistributeAssets { owner } => try_distribute_assets(
            store,
            api,
            env,
            info,
            owner,
        ),
        ExecuteMsg::SetRecipients { recipients } => try_set_recipients(
            store,
            api,
            env,
            info,
            recipients,
        ),
        ExecuteMsg::SetRenewalRate { renewal_rate } => try_set_renewal_rate(
            store,
            env,
            info,
            renewal_rate,
        ),
    }
}

/// The answer to the query for a will, over models.
pub open spec fn will_answer(res: Result<Will, ContractError>) -> Result<WillView, ErrorView> {
    match res {
        Ok(will) => Ok(will@),
        Err(e) => Err(e@),
    }
}

/// The answer to the query for memberships, over models.
pub open spec fn wills_answer(res: Result<Vec<Will>, ContractError>) -> Result<
    Seq<WillView>,
    ErrorView,
> {
    match res {
        Ok(wills) => Ok(wills.deep_view()),
        Err(e) => Err(e@),
    }
}

/// The will of an address that the host has resolved: the stored will, or a
/// fresh one where there is none. A refusal of the host is handed on.
pub fn get_will(store: &Store, env: Env, resolved: Result<String, String>) -> (res: Result<
    Will,
    ContractError,
>)
    requires
        store.wf(),
    ensures
        will_answer(res) == store@.get_will_resolved(resolution(resolved), env.time as nat),
{
    match resolved {
        Ok(address) => Ok(store.wills.load_or_default(&address, env.time, DEFAULT_RENEWAL_RATE)),
        Err(why) => Err(ContractError::Std(why)),
    }
}

/// Has `api` resolve `address`, and gives the will of that address: see
/// [`get_will`].
pub fn try_get_will<A: Fn(&String) -> Result<String, String>>(
    store: &Store,
    api: &A,
    env: Env,
    address: String,
) -> (res: Result<Will, ContractError>)
    requires
        store.wf(),
        forall|text: &String| call_requires(*api, (text,)),
    ensures
        exists|resolved: Result<String, String>|
            call_ensures(*api, (&address,), resolved) && will_answer(res)
                == store@.get_will_resolved(resolution(resolved), env.time as nat),
{
    let resolved = api(&address);
    let ghost outcome = resolved;
    let res = get_will(store, env, resolved);
    proof {
        assert(call_ensures(*api, (&address,), outcome));
    }
    res
}

/// The wills of the owners that the index holds under an address that the
/// host has resolved, in the order of the entry; for an owner without a
/// will, a fresh one. A refusal of the host is handed on.
pub fn see_memberships(store: &Store, env: Env, resolved: Result<String, String>) -> (res: Result<
    Vec<Will>,
    ContractError,
>)
    requires
        store.wf(),
    ensures
        wills_answer(res) == store@.see_memberships_resolved(
            resolution(resolved),
            env.time as nat,
        ),
{
    let address = match resolved {
        Ok(address) => address,
        Err(why) => {
            return Err(ContractError::Std(why));
        },
    };
    let mut wills: Vec<Will> = Vec::new();
    let memberships = match store.memberships.load(&address) {
        Some(memberships) => memberships,
        None => {
            assert(wills.deep_view() =~= Seq::<WillView>::empty());
            return Ok(wills);
        },
    };
    let ghost expected = store@.see_memberships(address@, env.time as nat);
    let mut i: usize = 0;
    while i < memberships.len()
        invariant
            i <= memberships.len(),
            store.wf(),
            memberships.deep_view() == store@.memberships[address@],
            store@.memberships.contains_key(address@),
            expected == store@.see_memberships(address@, env.time as nat),
            wills.len() == i,
            forall|j: int| 0 <= j < i ==> wills[j]@ == expected[j],
        decreases memberships.len() - i,
    {
        let will = store.wills.load_or_default(&memberships[i], env.time, DEFAULT_RENEWAL_RATE);
        assert(will@ == expected[i as int]);
        wills.push(will);
        i += 1;
    }
    assert(wills.deep_view() =~= expected);
    Ok(wills)
}

/// Has `api` resolve `address`, and gives the wills that name that address:
/// see [`see_memberships`].
pub fn try_see_memberships<A: Fn(&String) -> Result<String, String>>(
    store: &Store,
    api: &A,
    env: Env,
    address: String,
) -> (res: Result<Vec<Will>, ContractError>)
    requires
        store.wf(),
        forall|text: &String| call_requires(*api, (text,)),
    ensures
        exists|resolved: Result<String, String>|
            call_ensures(*api, (&address,), resolved) && wills_answer(res)
                == store@.see_memberships_resolved(resolution(resolved), env.time as nat),
{
    let resolved = api(&address);
    let ghost outcome = resolved;
    let res = see_memberships(store, env, resolved);
    proof {
        assert(call_ensures(*api, (&address,), outcome));
    }
    res
}

/// Whether `res` answers the query `msg` on `store`, with `api` to resolve the
/// address.
pub open spec fn answered<A: Fn(&String) -> Result<String, String>>(
    api: A,
    store: StoreView,
    env: Env,
    msg: QueryMsg,
    res: Result<QueryResponse, ContractError>,
) -> bool {
    let now = env.time as nat;
    match msg {
        QueryMsg::GetWill { address } => exists|resolved: Result<String, String>|
            call_ensures(api, (&address,), resolved) && match res {
                Ok(QueryResponse::Will(will)) => store.get_will_resolved(resolution(resolved), now)
                    == Ok::<WillView, ErrorView>(will@),
                Ok(QueryResponse::Memberships(_)) => false,
                Err(e) => store.get_will_resolved(resolution(resolved), now) == Err::<
                    WillView,
                    ErrorView,
                >(e@),
            },
        QueryMsg::SeeMemberships { address } => exists|resolved: Result<String, String>|
            call_ensures(api, (&address,), resolved) && match res {
                Ok(QueryResponse::Memberships(wills)) => store.see_memberships_resolved(
                    resolution(resolved),
                    now,
                ) == Ok::<Seq<WillView>, ErrorView>(wills.deep_view()),
                Ok(QueryResponse::Will(_)) => false,
                Err(e) => store.see_memberships_resolved(resolution(resolved), now) == Err::<
                    Seq<WillView>,
                    ErrorView,
                >(e@),
            },
    }
}

/// Answers a query.
pub fn query<A: Fn(&String) -> Result<String, String>>(
    store: &Store,
    api: &A,
    env: Env,
    msg: QueryMsg,
) -> (res: Result<QueryResponse, ContractError>)
    requires
        store.wf(),
        forall|text: &String| call_requires(*api, (text,)),
    ensures
        answered(*api, store@, env, msg, res),
{
    match msg {
        QueryMsg::GetWill { address } => match try_get_will(store, api, env, address) {
            Ok(will) => Ok(QueryResponse::Will(will)),
            Err(e) => Err(e),
        },
        QueryMsg::SeeMemberships { address } => match try_see_memberships(
            store,
            api,
            env,
            address,
        ) {
            Ok(wills) => Ok(QueryResponse::Memberships(wills)),
            Err(e) => Err(e),
        },
    }
}

} // verus!
