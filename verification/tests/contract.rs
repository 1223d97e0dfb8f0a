use cosmwasm_std::testing::MockApi;
use cosmwasm_std::Api;
use will::contract::{
    deposit_fits, distribute_assets, execute, get_will, instantiate, query, see_memberships,
    set_recipients, try_deposit_tokens, try_distribute_assets, try_get_will,
    try_reset_timestamp, try_see_memberships, try_set_recipients, try_set_renewal_rate,
    try_withdraw_tokens,
};
use will::error::ContractError;
use will::host::{Attribute, Env, MessageInfo, Response, Transfer};
use will::msg::{ExecuteMsg, InstantiateMsg, QueryMsg, QueryResponse};
use will::state::{Coin, Recipient, State, UnparsedRecipient, Will, DEFAULT_RENEWAL_RATE};
use will::store::Store;

fn api(text: &String) -> Result<String, String> {
    MockApi::default().addr_validate(text).map(|addr| addr.to_string()).map_err(|e| e.to_string())
}

fn mock_env() -> Env {
    Env { time: cosmwasm_std::testing::mock_env().block.time.seconds() }
}

fn env_at(time: u64) -> Env {
    Env { time }
}

fn mock_info(sender: &str, funds: &[Coin]) -> MessageInfo {
    let funds: Vec<cosmwasm_std::Coin> =
        funds.iter().map(|c| cosmwasm_std::coin(c.amount, c.denom.clone())).collect();
    let info = cosmwasm_std::testing::mock_info(sender, &funds);
    MessageInfo {
        sender: info.sender.to_string(),
        funds: info
            .funds
            .into_iter()
            .map(|c| Coin { denom: c.denom, amount: c.amount.u128() })
            .collect(),
    }
}

fn coin(amount: u128, denom: &str) -> Coin {
    Coin { denom: denom.to_string(), amount }
}

fn coins(amount: u128, denom: &str) -> Vec<Coin> {
    vec![coin(amount, denom)]
}

fn unparsed(address: &str, percentage: u128) -> UnparsedRecipient {
    UnparsedRecipient { address: address.to_string(), percentage }
}

fn recipient(address: &str, percentage: u128) -> Recipient {
    Recipient { address: address.to_string(), percentage }
}

fn note(key: &str, value: &str) -> Response {
    Response {
        attributes: vec![Attribute { key: key.to_string(), value: value.to_string() }],
        messages: vec![],
    }
}

#[test]
fn init() {
    let addr = "creator";
    let mut store = Store::new();
    let info = mock_info(addr, &coins(2, "uluna"));

    instantiate(&mut store, mock_env(), info, InstantiateMsg {}).unwrap();
}

#[test]
#[allow(non_snake_case)]
fn depositAndWithdraw() {
    let addr = "creator";
    let mut store = Store::new();
    let info = mock_info(addr, &coins(2, "uluna"));
    let mut recipients = Vec::new();
    recipients.push(UnparsedRecipient { address: addr.to_string(), percentage: 100 });
    let mut tokens = Vec::new();
    tokens.push(Coin { denom: "uluna".to_string(), amount: 2 });

    try_deposit_tokens(&mut store, mock_env(), info.clone()).unwrap();
    try_set_recipients(&mut store, &api, mock_env(), info.clone(), recipients.clone()).unwrap();

    let will_after_deposit = try_get_will(&store, &api, mock_env(), addr.to_string()).unwrap();

    assert_eq!(will_after_deposit.recipients.len(), 1);
    assert_eq!(will_after_deposit.tokens[0], Coin { denom: "uluna".to_string(), amount: 2 });
    assert_eq!(will_after_deposit.recipients[0].address, addr.to_string());
    assert_eq!(will_after_deposit.recipients[0].percentage, 100);

    try_withdraw_tokens(&mut store, mock_env(), info.clone(), tokens.clone()).unwrap();

    let will_after_withdraw = try_get_will(&store, &api, mock_env(), addr.to_string()).unwrap();
    assert_eq!(will_after_withdraw.tokens[0], Coin { denom: "uluna".to_string(), amount: 0 });
}

#[test]
fn the_mock_time_is_in_seconds() {
    assert_eq!(mock_env(), Env { time: 1_571_797_419 });
}

#[test]
fn instantiate_records_the_sender_as_admin() {
    let mut store = Store::new();
    let response =
        instantiate(&mut store, mock_env(), mock_info("creator", &[]), InstantiateMsg {}).unwrap();
    assert_eq!(store.state, Some(State { admin: "creator".to_string() }));
    assert_eq!(
        response,
        Response {
            attributes: vec![
                Attribute { key: "action".to_string(), value: "instantiate".to_string() },
                Attribute { key: "owner_address".to_string(), value: "creator".to_string() },
            ],
            messages: vec![],
        }
    );
}

#[test]
fn deposit_alone_names_nobody() {
    let mut store = Store::new();
    try_deposit_tokens(&mut store, mock_env(), mock_info("creator", &coins(2, "uluna"))).unwrap();
    let will = try_get_will(&store, &api, mock_env(), "creator".to_string()).unwrap();
    assert_eq!(will.recipients.len(), 0);
    assert_eq!(will.tokens, coins(2, "uluna"));
}

#[test]
fn a_missing_will_shows_as_a_fresh_one() {
    let store = Store::new();
    let will = try_get_will(&store, &api, env_at(77), "nobody".to_string()).unwrap();
    assert_eq!(
        will,
        Will {
            owner: "nobody".to_string(),
            recipients: vec![],
            timestamp: 77,
            renewal_rate: 31_536_000,
            tokens: vec![],
        }
    );
    assert_eq!(DEFAULT_RENEWAL_RATE, 60 * 60 * 24 * 365);
    assert_eq!(store, Store::new());
}

#[test]
fn reset_timestamp_creates_and_renews() {
    let mut store = Store::new();
    let response = try_reset_timestamp(&mut store, env_at(10), mock_info("creator", &[])).unwrap();
    assert_eq!(response, note("action", "reset_timestamp"));
    assert_eq!(store.wills.load(&"creator".to_string()).unwrap().timestamp, 10);
    try_reset_timestamp(&mut store, env_at(25), mock_info("creator", &[])).unwrap();
    let will = store.wills.load(&"creator".to_string()).unwrap();
    assert_eq!(will.timestamp, 25);
    assert_eq!(will.renewal_rate, 31_536_000);
    assert_eq!(will.owner, "creator");
}

#[test]
fn set_renewal_rate_takes_any_interval_and_renews() {
    let mut store = Store::new();
    let response =
        try_set_renewal_rate(&mut store, env_at(10), mock_info("creator", &[]), 0).unwrap();
    assert_eq!(response, note("action", "set_renewal_rate"));
    let will = store.wills.load(&"creator".to_string()).unwrap();
    assert_eq!((will.renewal_rate, will.timestamp), (0, 10));
    try_set_renewal_rate(&mut store, env_at(20), mock_info("creator", &[]), u128::MAX).unwrap();
    let will = store.wills.load(&"creator".to_string()).unwrap();
    assert_eq!((will.renewal_rate, will.timestamp), (u128::MAX, 20));
}

#[test]
fn deposit_adds_to_tracked_and_appends_untracked() {
    let mut store = Store::new();
    let funds = vec![coin(5, "uluna"), coin(7, "uusd"), coin(3, "uluna")];
    let response =
        try_deposit_tokens(&mut store, env_at(10), mock_info("creator", &funds)).unwrap();
    assert_eq!(response, note("action", "deposit_tokens"));
    let will = store.wills.load(&"creator".to_string()).unwrap();
    assert_eq!(will.tokens, vec![coin(8, "uluna"), coin(7, "uusd")]);
    assert_eq!(will.timestamp, 10);
    try_deposit_tokens(&mut store, env_at(30), mock_info("creator", &coins(1, "uusd"))).unwrap();
    let will = store.wills.load(&"creator".to_string()).unwrap();
    assert_eq!(will.tokens, vec![coin(8, "uluna"), coin(8, "uusd")]);
    assert_eq!(will.timestamp, 30);
}

#[test]
fn deposit_of_the_reserved_denomination_is_refused() {
    let mut store = Store::new();
    try_deposit_tokens(&mut store, env_at(10), mock_info("creator", &coins(5, "uluna"))).unwrap();
    let before = store.clone();
    let funds = vec![coin(1, "uluna"), coin(1, "cw20")];
    let err = try_deposit_tokens(&mut store, env_at(20), mock_info("creator", &funds)).unwrap_err();
    assert_eq!(err, ContractError::InvalidTokenDenom {});
    assert_eq!(store, before);
}

#[test]
fn deposit_fits_tells_an_overflow() {
    let mut store = Store::new();
    let info = mock_info("creator", &coins(u128::MAX - 1, "uluna"));
    assert!(deposit_fits(&store, mock_env(), &info));
    try_deposit_tokens(&mut store, mock_env(), info).unwrap();
    assert!(deposit_fits(&store, mock_env(), &mock_info("creator", &coins(1, "uluna"))));
    assert!(!deposit_fits(&store, mock_env(), &mock_info("creator", &coins(2, "uluna"))));
    assert!(deposit_fits(&store, mock_env(), &mock_info("creator", &coins(2, "uusd"))));
    assert!(deposit_fits(&store, mock_env(), &mock_info("other", &coins(2, "uluna"))));
    let twice = vec![coin(1, "uluna"), coin(1, "uluna")];
    assert!(!deposit_fits(&store, mock_env(), &mock_info("creator", &twice)));
    let refused = vec![coin(2, "uluna"), coin(1, "cw20")];
    assert!(deposit_fits(&store, mock_env(), &mock_info("creator", &refused)));
}

#[test]
fn withdraw_sends_back_what_was_asked() {
    let mut store = Store::new();
    let funds = vec![coin(10, "uluna"), coin(20, "uusd")];
    try_deposit_tokens(&mut store, env_at(10), mock_info("creator", &funds)).unwrap();
    let asked = vec![coin(4, "uusd"), coin(10, "uluna"), coin(6, "uusd")];
    let response =
        try_withdraw_tokens(&mut store, env_at(500), mock_info("creator", &[]), asked.clone())
            .unwrap();
    assert_eq!(
        response,
        Response {
            attributes: vec![Attribute {
                key: "action".to_string(),
                value: "withdraw_tokens".to_string()
            }],
            messages: vec![Transfer { to_address: "creator".to_string(), amount: asked }],
        }
    );
    let will = store.wills.load(&"creator".to_string()).unwrap();
    assert_eq!(will.tokens, vec![coin(0, "uluna"), coin(10, "uusd")]);
}

#[test]
fn withdraw_does_not_renew_the_will() {
    let mut store = Store::new();
    try_deposit_tokens(&mut store, env_at(10), mock_info("creator", &coins(10, "uluna"))).unwrap();
    try_withdraw_tokens(&mut store, env_at(500), mock_info("creator", &[]), coins(1, "uluna"))
        .unwrap();
    assert_eq!(store.wills.load(&"creator".to_string()).unwrap().timestamp, 10);
}

#[test]
fn withdraw_without_a_will_is_refused() {
    let mut store = Store::new();
    let err = try_withdraw_tokens(&mut store, mock_env(), mock_info("creator", &[]), vec![])
        .unwrap_err();
    assert_eq!(err, ContractError::NonExistentWill {});
    assert_eq!(store, Store::new());
}

#[test]
fn withdraw_of_more_than_is_tracked_is_refused() {
    let mut store = Store::new();
    let funds = vec![coin(10, "uluna"), coin(20, "uusd")];
    try_deposit_tokens(&mut store, env_at(10), mock_info("creator", &funds)).unwrap();
    let before = store.clone();
    let asked = vec![coin(5, "uusd"), coin(11, "uluna")];
    let err = try_withdraw_tokens(&mut store, mock_env(), mock_info("creator", &[]), asked)
        .unwrap_err();
    assert_eq!(err, ContractError::InsufficientFunds {});
    assert_eq!(store, before);
    let in_two_steps = vec![coin(6, "uluna"), coin(5, "uluna")];
    let err = try_withdraw_tokens(&mut store, mock_env(), mock_info("creator", &[]), in_two_steps)
        .unwrap_err();
    assert_eq!(err, ContractError::InsufficientFunds {});
    assert_eq!(store, before);
}

#[test]
fn withdraw_of_an_untracked_denomination_is_refused() {
    let mut store = Store::new();
    try_deposit_tokens(&mut store, env_at(10), mock_info("creator", &coins(10, "uluna"))).unwrap();
    let before = store.clone();
    let err =
        try_withdraw_tokens(&mut store, mock_env(), mock_info("creator", &[]), coins(0, "uusd"))
            .unwrap_err();
    assert_eq!(err, ContractError::InsufficientFunds {});
    assert_eq!(store, before);
}

#[test]
fn withdraw_of_the_reserved_denomination_is_refused() {
    let mut store = Store::new();
    try_deposit_tokens(&mut store, env_at(10), mock_info("creator", &coins(10, "uluna"))).unwrap();
    let before = store.clone();
    let asked = vec![coin(1, "uluna"), coin(1, "cw20")];
    let err = try_withdraw_tokens(&mut store, mock_env(), mock_info("creator", &[]), asked)
        .unwrap_err();
    assert_eq!(err, ContractError::InvalidTokenDenom {});
    assert_eq!(store, before);
    let asked = vec![coin(100, "uluna"), coin(1, "cw20")];
    let err = try_withdraw_tokens(&mut store, mock_env(), mock_info("creator", &[]), asked)
        .unwrap_err();
    assert_eq!(err, ContractError::InsufficientFunds {});
}

#[test]
fn set_recipients_merges_and_renews() {
    let mut store = Store::new();
    let info = mock_info("creator", &[]);
    let first = vec![unparsed("bob", 60), unparsed("carol", 40)];
    let response = try_set_recipients(&mut store, &api, env_at(10), info.clone(), first).unwrap();
    assert_eq!(response, note("action", "set_recipients"));
    let will = store.wills.load(&"creator".to_string()).unwrap();
    assert_eq!(will.recipients, vec![recipient("bob", 60), recipient("carol", 40)]);
    assert_eq!(will.timestamp, 10);

    let second = vec![unparsed("carol", 30), unparsed("dave", 50), unparsed("bob", 20)];
    try_set_recipients(&mut store, &api, env_at(20), info.clone(), second).unwrap();
    let will = store.wills.load(&"creator".to_string()).unwrap();
    assert_eq!(
        will.recipients,
        vec![recipient("bob", 20), recipient("carol", 30), recipient("dave", 50)]
    );
    assert_eq!(will.timestamp, 20);
}

#[test]
fn set_recipients_never_drops_a_recipient() {
    let mut store = Store::new();
    let info = mock_info("creator", &[]);
    let first = vec![unparsed("bob", 60), unparsed("carol", 40)];
    try_set_recipients(&mut store, &api, env_at(10), info.clone(), first).unwrap();
    try_set_recipients(&mut store, &api, env_at(20), info.clone(), vec![unparsed("dave", 100)])
        .unwrap();
    let will = store.wills.load(&"creator".to_string()).unwrap();
    assert_eq!(
        will.recipients,
        vec![recipient("bob", 60), recipient("carol", 40), recipient("dave", 100)]
    );
}

#[test]
fn set_recipients_takes_the_last_share_of_a_repeated_address() {
    let mut store = Store::new();
    let info = mock_info("creator", &[]);
    let submitted = vec![unparsed("bob", 70), unparsed("bob", 30)];
    try_set_recipients(&mut store, &api, env_at(10), info, submitted).unwrap();
    let will = store.wills.load(&"creator".to_string()).unwrap();
    assert_eq!(will.recipients, vec![recipient("bob", 30)]);
    assert_eq!(store.memberships.load(&"bob".to_string()), Some(vec!["creator".to_string()]));
}

#[test]
fn set_recipients_refuses_a_sum_other_than_one_hundred() {
    let mut store = Store::new();
    let info = mock_info("creator", &[]);
    let first = vec![unparsed("bob", 60), unparsed("carol", 40)];
    try_set_recipients(&mut store, &api, env_at(10), info.clone(), first).unwrap();
    let before = store.clone();
    for submitted in [
        vec![unparsed("bob", 60), unparsed("carol", 39)],
        vec![unparsed("bob", 60), unparsed("dave", 41)],
        vec![unparsed("dave", 101)],
        vec![unparsed("dave", u128::MAX), unparsed("erin", 101)],
        vec![],
    ] {
        let err = try_set_recipients(&mut store, &api, env_at(20), info.clone(), submitted)
            .unwrap_err();
        assert_eq!(err, ContractError::InvalidRecipients {});
        assert_eq!(store, before);
    }
}

#[test]
fn set_recipients_hands_on_the_refusal_of_an_address() {
    let mut store = Store::new();
    let info = mock_info("creator", &[]);
    let submitted = vec![unparsed("bob", 60), unparsed("Carol", 30)];
    let err =
        try_set_recipients(&mut store, &api, env_at(20), info.clone(), submitted).unwrap_err();
    assert_eq!(err, ContractError::Std(api(&"Carol".to_string()).unwrap_err()));
    assert_eq!(store, Store::new());
    let entries =
        vec![Ok(recipient("bob", 50)), Err("first".to_string()), Err("second".to_string())];
    let err = set_recipients(&mut store, env_at(20), info, entries).unwrap_err();
    assert_eq!(err, ContractError::Std("first".to_string()));
    assert_eq!(store, Store::new());
}

#[test]
fn set_recipients_enters_the_owner_in_the_index() {
    let mut store = Store::new();
    let first = vec![unparsed("bob", 60), unparsed("carol", 40)];
    try_set_recipients(&mut store, &api, env_at(10), mock_info("alice", &[]), first).unwrap();
    let second = vec![unparsed("bob", 100)];
    try_set_recipients(&mut store, &api, env_at(10), mock_info("zoe", &[]), second).unwrap();
    let again = vec![unparsed("bob", 50), unparsed("dave", 50)];
    try_set_recipients(&mut store, &api, env_at(10), mock_info("alice", &[]), again).unwrap();
    assert_eq!(
        store.memberships.load(&"bob".to_string()),
        Some(vec!["alice".to_string(), "zoe".to_string()])
    );
    assert_eq!(store.memberships.load(&"carol".to_string()), Some(vec!["alice".to_string()]));
    assert_eq!(store.memberships.load(&"dave".to_string()), Some(vec!["alice".to_string()]));
    assert_eq!(store.memberships.load(&"alice".to_string()), None);
}

#[test]
fn see_memberships_shows_the_wills_that_name_an_address() {
    let mut store = Store::new();
    try_set_recipients(
        &mut store,
        &api,
        env_at(10),
        mock_info("alice", &coins(1, "uluna")),
        vec![unparsed("bob", 100)],
    )
    .unwrap();
    try_set_recipients(
        &mut store,
        &api,
        env_at(20),
        mock_info("zoe", &[]),
        vec![unparsed("bob", 50), unparsed("carol", 50)],
    )
    .unwrap();
    let wills = try_see_memberships(&store, &api, env_at(30), "bob".to_string()).unwrap();
    assert_eq!(wills.len(), 2);
    assert_eq!(wills[0], store.wills.load(&"alice".to_string()).unwrap());
    assert_eq!(wills[1], store.wills.load(&"zoe".to_string()).unwrap());
    let wills = try_see_memberships(&store, &api, env_at(30), "carol".to_string()).unwrap();
    assert_eq!(wills, vec![store.wills.load(&"zoe".to_string()).unwrap()]);
    let wills = try_see_memberships(&store, &api, env_at(30), "nobody".to_string()).unwrap();
    assert_eq!(wills, vec![]);
}

#[test]
fn see_memberships_shows_a_fresh_will_for_an_owner_without_one() {
    let mut store = Store::new();
    store.memberships.save("bob".to_string(), vec!["ghost".to_string()]);
    let wills = see_memberships(&store, env_at(30), Ok("bob".to_string())).unwrap();
    assert_eq!(wills, vec![Will::fresh("ghost".to_string(), 30, DEFAULT_RENEWAL_RATE)]);
}

#[test]
fn queries_hand_on_the_refusal_of_an_address() {
    let store = Store::new();
    let refusal = api(&"".to_string()).unwrap_err();
    assert_eq!(
        try_get_will(&store, &api, mock_env(), "".to_string()),
        Err(ContractError::Std(refusal.clone()))
    );
    assert_eq!(
        try_see_memberships(&store, &api, mock_env(), "".to_string()),
        Err(ContractError::Std(refusal.clone()))
    );
    assert_eq!(
        get_will(&store, mock_env(), Err("why".to_string())),
        Err(ContractError::Std("why".to_string()))
    );
    assert_eq!(
        see_memberships(&store, mock_env(), Err("why".to_string())),
        Err(ContractError::Std("why".to_string()))
    );
    assert_eq!(
        query(&store, &api, mock_env(), QueryMsg::GetWill { address: "".to_string() }),
        Err(ContractError::Std(refusal))
    );
}

#[test]
fn distribution_splits_the_balances() {
    let owner = "alice";
    let mut store = Store::new();
    try_deposit_tokens(&mut store, env_at(1_000), mock_info(owner, &coins(100_000_000, "uluna")))
        .unwrap();
    let submitted = vec![unparsed("bob", 60), unparsed("carol", 40)];
    try_set_recipients(&mut store, &api, env_at(1_000), mock_info(owner, &[]), submitted)
        .unwrap();
    let later = env_at(1_000 + 31_536_000);
    let response =
        try_distribute_assets(&mut store, &api, later, mock_info("anyone", &[]), owner.to_string())
            .unwrap();
    assert_eq!(
        response,
        Response {
            attributes: vec![Attribute {
                key: "method".to_string(),
                value: "distribute_assets".to_string()
            }],
            messages: vec![
                Transfer { to_address: "bob".to_string(), amount: coins(60_000_000, "uluna") },
                Transfer { to_address: "carol".to_string(), amount: coins(40_000_000, "uluna") },
            ],
        }
    );
    assert!(!store.wills.contains(&owner.to_string()));
    assert_eq!(
        try_get_will(&store, &api, later, owner.to_string()).unwrap(),
        Will::fresh(owner.to_string(), 1_000 + 31_536_000, DEFAULT_RENEWAL_RATE)
    );
    assert_eq!(store.memberships.load(&"bob".to_string()), Some(vec![]));
    assert_eq!(store.memberships.load(&"carol".to_string()), Some(vec![]));
}

#[test]
fn distribution_of_small_amounts_sends_nothing() {
    let owner = "alice";
    let mut store = Store::new();
    try_deposit_tokens(&mut store, env_at(0), mock_info(owner, &coins(100, "uluna"))).unwrap();
    let submitted = vec![unparsed("bob", 60), unparsed("carol", 40)];
    try_set_recipients(&mut store, &api, env_at(0), mock_info(owner, &[]), submitted).unwrap();
    let response = try_distribute_assets(
        &mut store,
        &api,
        env_at(31_536_000),
        mock_info("anyone", &[]),
        owner.to_string(),
    )
    .unwrap();
    assert_eq!(response, note("method", "distribute_assets"));
    assert!(!store.wills.contains(&owner.to_string()));
}

#[test]
fn distribution_waits_for_the_renewal_interval() {
    let owner = "alice";
    let mut store = Store::new();
    try_set_renewal_rate(&mut store, env_at(1_000), mock_info(owner, &[]), 500).unwrap();
    let before = store.clone();
    for time in [0, 999, 1_000, 1_499] {
        let err = try_distribute_assets(
            &mut store,
            &api,
            env_at(time),
            mock_info("anyone", &[]),
            owner.to_string(),
        )
        .unwrap_err();
        assert_eq!(err, ContractError::NotClaimable {});
        assert_eq!(store, before);
    }
    try_distribute_assets(
        &mut store,
        &api,
        env_at(1_500),
        mock_info("anyone", &[]),
        owner.to_string(),
    )
    .unwrap();
    assert!(!store.wills.contains(&owner.to_string()));
}

#[test]
fn distribution_with_a_zero_interval_is_due_at_once() {
    let mut store = Store::new();
    try_set_renewal_rate(&mut store, env_at(1_000), mock_info("alice", &[]), 0).unwrap();
    distribute_assets(&mut store, env_at(1_000), Ok("alice".to_string())).unwrap();
    assert_eq!(store.wills, Store::new().wills);
}

#[test]
fn distribution_happens_once() {
    let owner = "alice";
    let mut store = Store::new();
    try_deposit_tokens(&mut store, env_at(0), mock_info(owner, &coins(1_000_000, "uluna")))
        .unwrap();
    let submitted = vec![unparsed("bob", 100)];
    try_set_recipients(&mut store, &api, env_at(0), mock_info(owner, &[]), submitted).unwrap();
    let later = env_at(31_536_000);
    try_distribute_assets(&mut store, &api, later, mock_info("bob", &[]), owner.to_string())
        .unwrap();
    let after = store.clone();
    let err =
        try_distribute_assets(&mut store, &api, later, mock_info("bob", &[]), owner.to_string())
            .unwrap_err();
    assert_eq!(err, ContractError::NonExistentWill {});
    assert_eq!(store, after);
}

#[test]
fn distribution_hands_on_the_refusal_of_an_address() {
    let mut store = Store::new();
    try_reset_timestamp(&mut store, env_at(0), mock_info("alice", &[])).unwrap();
    let before = store.clone();
    let err = try_distribute_assets(
        &mut store,
        &api,
        env_at(31_536_000),
        mock_info("bob", &[]),
        "ALICE".to_string(),
    )
    .unwrap_err();
    assert_eq!(err, ContractError::Std(api(&"ALICE".to_string()).unwrap_err()));
    assert_eq!(store, before);
    let err = distribute_assets(&mut store, env_at(31_536_000), Err("no".to_string())).unwrap_err();
    assert_eq!(err, ContractError::Std("no".to_string()));
    assert_eq!(store, before);
}

#[test]
fn distribution_leaves_other_owners_in_the_index() {
    let mut store = Store::new();
    for owner in ["alice", "zoe"] {
        try_set_recipients(
            &mut store,
            &api,
            env_at(0),
            mock_info(owner, &[]),
            vec![unparsed("bob", 100)],
        )
        .unwrap();
    }
    distribute_assets(&mut store, env_at(31_536_000), Ok("alice".to_string())).unwrap();
    assert_eq!(store.memberships.load(&"bob".to_string()), Some(vec!["zoe".to_string()]));
    assert!(store.wills.contains(&"zoe".to_string()));
}

#[test]
fn distribution_gives_a_recipient_without_an_entry_an_empty_one() {
    let mut store = Store::new();
    let mut will = Will::fresh("alice".to_string(), 0, DEFAULT_RENEWAL_RATE);
    will.recipients.push(recipient("bob", 100));
    assert!(will.is_valid());
    store.wills.save(will);
    assert_eq!(store.memberships.load(&"bob".to_string()), None);
    distribute_assets(&mut store, env_at(31_536_000), Ok("alice".to_string())).unwrap();
    assert_eq!(store.memberships.load(&"bob".to_string()), Some(vec![]));
}

#[test]
fn execute_carries_out_each_request() {
    let mut store = Store::new();
    let info = mock_info("alice", &coins(1_000_000, "uluna"));
    let response =
        execute(&mut store, &api, env_at(5), info.clone(), ExecuteMsg::DepositTokens {}).unwrap();
    assert_eq!(response, note("action", "deposit_tokens"));
    let response = execute(
        &mut store,
        &api,
        env_at(6),
        info.clone(),
        ExecuteMsg::SetRecipients { recipients: vec![unparsed("bob", 100)] },
    )
    .unwrap();
    assert_eq!(response, note("action", "set_recipients"));
    let response = execute(
        &mut store,
        &api,
        env_at(7),
        info.clone(),
        ExecuteMsg::SetRenewalRate { renewal_rate: 10 },
    )
    .unwrap();
    assert_eq!(response, note("action", "set_renewal_rate"));
    let response =
        execute(&mut store, &api, env_at(8), info.clone(), ExecuteMsg::ResetTimestamp {}).unwrap();
    assert_eq!(response, note("action", "reset_timestamp"));
    let response = execute(
        &mut store,
        &api,
        env_at(9),
        info.clone(),
        ExecuteMsg::WithdrawTokens { tokens: coins(400_000, "uluna") },
    )
    .unwrap();
    assert_eq!(response.messages, vec![Transfer {
        to_address: "alice".to_string(),
        amount: coins(400_000, "uluna")
    }]);
    let will = store.wills.load(&"alice".to_string()).unwrap();
    assert_eq!(
        will,
        Will {
            owner: "alice".to_string(),
            recipients: vec![recipient("bob", 100)],
            timestamp: 8,
            renewal_rate: 10,
            tokens: coins(600_000, "uluna"),
        }
    );
    let err = execute(
        &mut store,
        &api,
        env_at(17),
        info.clone(),
        ExecuteMsg::DistributeAssets { owner: "alice".to_string() },
    )
    .unwrap_err();
    assert_eq!(err, ContractError::NotClaimable {});
    let response = execute(
        &mut store,
        &api,
        env_at(18),
        info,
        ExecuteMsg::DistributeAssets { owner: "alice".to_string() },
    )
    .unwrap();
    assert_eq!(response.messages, vec![Transfer {
        to_address: "bob".to_string(),
        amount: coins(600_000, "uluna")
    }]);
}

#[test]
fn query_answers_each_request() {
    let mut store = Store::new();
    try_set_recipients(
        &mut store,
        &api,
        env_at(10),
        mock_info("alice", &[]),
        vec![unparsed("bob", 100)],
    )
    .unwrap();
    let will = store.wills.load(&"alice".to_string()).unwrap();
    assert_eq!(
        query(&store, &api, env_at(20), QueryMsg::GetWill { address: "alice".to_string() }),
        Ok(QueryResponse::Will(will.clone()))
    );
    assert_eq!(
        query(&store, &api, env_at(20), QueryMsg::SeeMemberships { address: "bob".to_string() }),
        Ok(QueryResponse::Memberships(vec![will]))
    );
    assert_eq!(
        query(&store, &api, env_at(20), QueryMsg::GetWill { address: "bob".to_string() }),
        Ok(QueryResponse::Will(Will::fresh("bob".to_string(), 20, DEFAULT_RENEWAL_RATE)))
    );
}
