use will::contract::{
    distribute_assets, set_recipients, try_deposit_tokens, try_reset_timestamp,
    try_set_renewal_rate, try_withdraw_tokens,
};
use will::error::ContractError;
use will::host::{Env, MessageInfo, Response};
use will::state::{Coin, Recipient};
use will::store::Store;

fn env_at(time: u64) -> Env {
    Env { time }
}

fn sender(address: &str) -> MessageInfo {
    MessageInfo { sender: address.to_string(), funds: vec![] }
}

fn with_funds(address: &str, funds: Vec<Coin>) -> MessageInfo {
    MessageInfo { sender: address.to_string(), funds }
}

fn coin(amount: u128, denom: &str) -> Coin {
    Coin { denom: denom.to_string(), amount }
}

fn entries(list: &[(&str, u128)]) -> Vec<Result<Recipient, String>> {
    list.iter()
        .map(|(address, percentage)| {
            Ok(Recipient { address: address.to_string(), percentage: *percentage })
        })
        .collect()
}

fn total(store: &Store, owner: &str) -> u128 {
    store.wills.load(&owner.to_string()).unwrap().recipients.iter().map(|r| r.percentage).sum()
}

fn balance(store: &Store, owner: &str, denom: &str) -> u128 {
    let will = store.wills.load(&owner.to_string()).unwrap();
    will.tokens.iter().find(|c| c.denom == denom).map(|c| c.amount).unwrap_or(0)
}

fn sent(response: &Response, denom: &str) -> u128 {
    response
        .messages
        .iter()
        .flat_map(|m| m.amount.iter())
        .filter(|c| c.denom == denom)
        .map(|c| c.amount)
        .sum()
}

fn index_agrees_with_wills(store: &Store) -> bool {
    let owners = store.wills.owners();
    let recipients = store.memberships.recipients();
    let named = owners.iter().all(|owner| {
        let will = store.wills.load(owner).unwrap();
        will.recipients.iter().all(|r| match store.memberships.load(&r.address) {
            Some(entry) => entry.contains(owner),
            None => false,
        })
    });
    let listed = recipients.iter().all(|recipient| {
        let entry = store.memberships.load(recipient).unwrap();
        entry.iter().all(|owner| match store.wills.load(owner) {
            Some(will) => will.recipients.iter().any(|r| &r.address == recipient),
            None => false,
        })
    });
    let sets = recipients.iter().all(|recipient| {
        let entry = store.memberships.load(recipient).unwrap();
        entry.iter().all(|owner| entry.iter().filter(|other| *other == owner).count() == 1)
    });
    named && listed && sets
}

#[test]
fn percentages_add_up_to_one_hundred_when_every_recipient_is_resubmitted() {
    let mut store = Store::new();
    set_recipients(&mut store, env_at(1), sender("alice"), entries(&[("bob", 60), ("carol", 40)]))
        .unwrap();
    assert_eq!(total(&store, "alice"), 100);
    set_recipients(
        &mut store,
        env_at(2),
        sender("alice"),
        entries(&[("carol", 10), ("dave", 85), ("bob", 5)]),
    )
    .unwrap();
    assert_eq!(total(&store, "alice"), 100);
}

#[test]
fn percentages_add_up_to_more_when_a_recipient_is_left_alone() {
    let mut store = Store::new();
    set_recipients(&mut store, env_at(1), sender("alice"), entries(&[("bob", 60), ("carol", 40)]))
        .unwrap();
    set_recipients(&mut store, env_at(2), sender("alice"), entries(&[("bob", 30), ("dave", 70)]))
        .unwrap();
    assert_eq!(total(&store, "alice"), 100 + 40);
}

#[test]
fn percentages_add_up_to_less_when_an_address_is_repeated() {
    let mut store = Store::new();
    set_recipients(&mut store, env_at(1), sender("alice"), entries(&[("bob", 60), ("bob", 40)]))
        .unwrap();
    assert_eq!(total(&store, "alice"), 100 - 60);
}

#[test]
fn a_rejected_submission_changes_nothing() {
    let mut store = Store::new();
    try_deposit_tokens(&mut store, env_at(1), with_funds("alice", vec![coin(5, "uluna")]))
        .unwrap();
    let before = store.clone();
    let err = set_recipients(&mut store, env_at(2), sender("alice"), entries(&[("bob", 99)]))
        .unwrap_err();
    assert_eq!(err, ContractError::InvalidRecipients {});
    assert_eq!(store, before);
}

#[test]
fn balances_follow_deposits_and_withdrawals() {
    let mut store = Store::new();
    let deposit = vec![coin(10, "uluna"), coin(4, "uusd"), coin(6, "uluna")];
    try_deposit_tokens(&mut store, env_at(1), with_funds("alice", deposit)).unwrap();
    assert_eq!(balance(&store, "alice", "uluna"), 16);
    assert_eq!(balance(&store, "alice", "uusd"), 4);
    let request = vec![coin(7, "uluna"), coin(4, "uusd"), coin(9, "uluna")];
    try_withdraw_tokens(&mut store, env_at(2), sender("alice"), request).unwrap();
    assert_eq!(balance(&store, "alice", "uluna"), 0);
    assert_eq!(balance(&store, "alice", "uusd"), 0);
    let before = store.clone();
    let err = try_withdraw_tokens(&mut store, env_at(3), sender("alice"), vec![coin(1, "uluna")])
        .unwrap_err();
    assert_eq!(err, ContractError::InsufficientFunds {});
    assert_eq!(store, before);
}

#[test]
fn distribution_sends_all_but_the_dust() {
    let mut store = Store::new();
    try_deposit_tokens(&mut store, env_at(0), with_funds("alice", vec![coin(1_000_000, "uluna")]))
        .unwrap();
    set_recipients(
        &mut store,
        env_at(0),
        sender("alice"),
        entries(&[("bob", 5), ("carol", 25), ("dave", 70)]),
    )
    .unwrap();
    let response = distribute_assets(&mut store, env_at(31_536_000), Ok("alice".to_string()))
        .unwrap();
    assert_eq!(sent(&response, "uluna"), 950_000);
    assert_eq!(1_000_000 - sent(&response, "uluna"), 50_000);
    assert_eq!(sent(&response, "uusd"), 0);
}

#[test]
fn distribution_loses_what_rounding_leaves() {
    let mut store = Store::new();
    try_deposit_tokens(&mut store, env_at(0), with_funds("alice", vec![coin(1_000_001, "uluna")]))
        .unwrap();
    set_recipients(&mut store, env_at(0), sender("alice"), entries(&[("bob", 50), ("carol", 50)]))
        .unwrap();
    let response = distribute_assets(&mut store, env_at(31_536_000), Ok("alice".to_string()))
        .unwrap();
    assert_eq!(sent(&response, "uluna"), 1_000_000);
}

#[test]
fn eligibility_turns_at_the_renewal_interval() {
    for (last, interval, now, due) in [
        (100u64, 50u128, 149u64, false),
        (100, 50, 150, true),
        (100, 50, 151, true),
        (100, 0, 100, true),
        (100, 0, 99, false),
        (100, 1, 100, false),
        (0, 31_536_000, 31_535_999, false),
        (0, 31_536_000, 31_536_000, true),
        (5, u128::MAX, u64::MAX, false),
    ] {
        let mut store = Store::new();
        try_set_renewal_rate(&mut store, env_at(last), sender("alice"), interval).unwrap();
        let res = distribute_assets(&mut store, env_at(now), Ok("alice".to_string()));
        if due {
            assert!(res.is_ok());
            assert!(!store.wills.contains(&"alice".to_string()));
        } else {
            assert_eq!(res, Err(ContractError::NotClaimable {}));
            assert!(store.wills.contains(&"alice".to_string()));
        }
    }
}

#[test]
fn a_second_distribution_finds_no_will() {
    let mut store = Store::new();
    try_reset_timestamp(&mut store, env_at(0), sender("alice")).unwrap();
    assert!(distribute_assets(&mut store, env_at(31_536_000), Ok("alice".to_string())).is_ok());
    assert_eq!(
        distribute_assets(&mut store, env_at(31_536_000), Ok("alice".to_string())),
        Err(ContractError::NonExistentWill {})
    );
    assert_eq!(
        distribute_assets(&mut store, env_at(u64::MAX), Ok("alice".to_string())),
        Err(ContractError::NonExistentWill {})
    );
}

#[test]
fn the_index_agrees_with_the_wills_after_every_operation() {
    let mut store = Store::new();
    assert!(index_agrees_with_wills(&store));
    set_recipients(&mut store, env_at(1), sender("alice"), entries(&[("bob", 60), ("carol", 40)]))
        .unwrap();
    assert!(index_agrees_with_wills(&store));
    set_recipients(&mut store, env_at(2), sender("zoe"), entries(&[("bob", 50), ("alice", 50)]))
        .unwrap();
    assert!(index_agrees_with_wills(&store));
    set_recipients(&mut store, env_at(3), sender("alice"), entries(&[("dave", 100)])).unwrap();
    assert!(index_agrees_with_wills(&store));
    try_deposit_tokens(&mut store, env_at(4), with_funds("erin", vec![coin(1, "uluna")])).unwrap();
    assert!(index_agrees_with_wills(&store));
    try_withdraw_tokens(&mut store, env_at(5), sender("erin"), vec![coin(1, "uluna")]).unwrap();
    assert!(index_agrees_with_wills(&store));
    distribute_assets(&mut store, env_at(3 + 31_536_000), Ok("alice".to_string())).unwrap();
    assert!(index_agrees_with_wills(&store));
    assert_eq!(store.memberships.load(&"bob".to_string()), Some(vec!["zoe".to_string()]));
    assert_eq!(store.memberships.load(&"carol".to_string()), Some(vec![]));
    assert_eq!(store.memberships.load(&"dave".to_string()), Some(vec![]));
    distribute_assets(&mut store, env_at(3 + 31_536_000), Ok("zoe".to_string())).unwrap();
    assert!(index_agrees_with_wills(&store));
    assert_eq!(store.memberships.load(&"alice".to_string()), Some(vec![]));
}
