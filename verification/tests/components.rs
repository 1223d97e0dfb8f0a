use will::distribution::{compute_payout, compute_share, plan_transfers, DUST_FLOOR};
use will::error::ContractError;
use will::host::{Attribute, Response, Transfer};
use will::msg::ExecuteMsg;
use will::recipients::{accept_recipients, merge_one, resolve_recipients, validate_recipients};
use will::state::{
    clone_coins, clone_recipients, has_distinct_denoms, has_sound_recipients, Coin, Recipient,
    UnparsedRecipient, Will,
};
use will::store::{clone_texts, MembershipIndex, Store, WillStore};
use will::table::Table;
use will::tokens::{
    credit, credit_all, credit_would_fit, debit, debit_all, find_coin, has_reserved, is_reserved,
};

fn coin(amount: u128, denom: &str) -> Coin {
    Coin { denom: denom.to_string(), amount }
}

fn recipient(address: &str, percentage: u128) -> Recipient {
    Recipient { address: address.to_string(), percentage }
}

fn unparsed(address: &str, percentage: u128) -> UnparsedRecipient {
    UnparsedRecipient { address: address.to_string(), percentage }
}

fn lower_case_only(text: &String) -> Result<String, String> {
    if text.chars().all(|c| c.is_ascii_lowercase()) {
        Ok(text.clone())
    } else {
        Err(format!("not an address: {}", text))
    }
}

#[test]
fn share_is_the_percentage_rounded_down() {
    assert_eq!(compute_share(1_000_000, 33), 330_000);
    assert_eq!(compute_share(101, 50), 50);
    assert_eq!(compute_share(199, 1), 1);
    assert_eq!(compute_share(99, 1), 0);
    assert_eq!(compute_share(12_345, 0), 0);
    assert_eq!(compute_share(12_345, 100), 12_345);
    assert_eq!(compute_share(0, 100), 0);
}

#[test]
fn share_of_the_largest_amount_does_not_overflow() {
    assert_eq!(compute_share(u128::MAX, 100), u128::MAX);
    assert_eq!(compute_share(u128::MAX, 50), u128::MAX / 2);
    assert_eq!(compute_share(u128::MAX, 1), u128::MAX / 100);
    assert_eq!(
        compute_share(u128::MAX, 99),
        (u128::MAX / 100) * 99 + (u128::MAX % 100) * 99 / 100
    );
    assert_eq!(
        compute_share(u128::MAX - 55, 60),
        204_169_420_152_563_078_078_024_764_459_060_926_840
    );
}

#[test]
fn payout_drops_what_is_below_the_dust_floor() {
    assert_eq!(DUST_FLOOR, 100_000);
    let tokens = vec![coin(199_998, "uluna"), coin(200_000, "uusd"), coin(200_001, "ukrw")];
    assert_eq!(compute_payout(&tokens, 50), vec![coin(100_000, "uusd"), coin(100_000, "ukrw")]);
    assert_eq!(compute_payout(&tokens, 49), vec![]);
    assert_eq!(compute_payout(&tokens, 100), tokens);
    assert_eq!(compute_payout(&vec![], 100), vec![]);
}

#[test]
fn transfers_skip_recipients_that_get_nothing() {
    let tokens = vec![coin(1_000_000, "uluna"), coin(150_000, "uusd")];
    let recipients = vec![recipient("bob", 5), recipient("carol", 25), recipient("dave", 70)];
    assert_eq!(
        plan_transfers(&recipients, &tokens),
        vec![
            Transfer { to_address: "carol".to_string(), amount: vec![coin(250_000, "uluna")] },
            Transfer {
                to_address: "dave".to_string(),
                amount: vec![coin(700_000, "uluna"), coin(105_000, "uusd")]
            },
        ]
    );
    assert_eq!(plan_transfers(&vec![], &tokens), vec![]);
    assert_eq!(plan_transfers(&recipients, &vec![]), vec![]);
}

#[test]
fn credit_finds_the_denomination_or_appends() {
    let mut tokens = vec![coin(1, "uluna"), coin(2, "uusd")];
    credit(&mut tokens, &coin(5, "uusd"));
    assert_eq!(tokens, vec![coin(1, "uluna"), coin(7, "uusd")]);
    credit(&mut tokens, &coin(9, "ukrw"));
    assert_eq!(tokens, vec![coin(1, "uluna"), coin(7, "uusd"), coin(9, "ukrw")]);
    credit_all(&mut tokens, &vec![coin(1, "ukrw"), coin(1, "uluna"), coin(1, "ukrw")]);
    assert_eq!(tokens, vec![coin(2, "uluna"), coin(7, "uusd"), coin(11, "ukrw")]);
    assert_eq!(find_coin(&tokens, &"uusd".to_string()), Some(1));
    assert_eq!(find_coin(&tokens, &"none".to_string()), None);
}

#[test]
fn credit_would_fit_tells_an_overflow() {
    let tokens = vec![coin(u128::MAX - 3, "uluna")];
    assert!(credit_would_fit(&tokens, &vec![coin(3, "uluna")]));
    assert!(!credit_would_fit(&tokens, &vec![coin(4, "uluna")]));
    assert!(!credit_would_fit(&tokens, &vec![coin(2, "uluna"), coin(2, "uluna")]));
    assert!(credit_would_fit(&tokens, &vec![coin(u128::MAX, "uusd")]));
    assert!(!credit_would_fit(&tokens, &vec![coin(u128::MAX, "uusd"), coin(1, "uusd")]));
    assert!(credit_would_fit(&tokens, &vec![]));
}

#[test]
fn debit_takes_what_is_tracked() {
    let mut tokens = vec![coin(10, "uluna"), coin(2, "uusd")];
    assert_eq!(debit(&mut tokens, &coin(10, "uluna")), Ok(()));
    assert_eq!(tokens, vec![coin(0, "uluna"), coin(2, "uusd")]);
    assert_eq!(debit(&mut tokens, &coin(3, "uusd")), Err(ContractError::InsufficientFunds {}));
    assert_eq!(debit(&mut tokens, &coin(0, "ukrw")), Err(ContractError::InsufficientFunds {}));
    assert_eq!(debit(&mut tokens, &coin(0, "cw20")), Err(ContractError::InvalidTokenDenom {}));
    assert_eq!(tokens, vec![coin(0, "uluna"), coin(2, "uusd")]);
    assert_eq!(debit_all(&mut tokens, &vec![coin(1, "uusd"), coin(1, "uusd")]), Ok(()));
    assert_eq!(tokens, vec![coin(0, "uluna"), coin(0, "uusd")]);
    assert_eq!(
        debit_all(&mut tokens, &vec![coin(0, "uusd"), coin(1, "uluna"), coin(1, "cw20")]),
        Err(ContractError::InsufficientFunds {})
    );
    let mut tokens = vec![coin(10, "uluna"), coin(2, "uusd")];
    assert_eq!(
        debit_all(&mut tokens, &vec![coin(4, "uluna"), coin(2, "uusd"), coin(7, "uluna")]),
        Err(ContractError::InsufficientFunds {})
    );
    assert_eq!(tokens, vec![coin(10, "uluna"), coin(2, "uusd")]);
    assert_eq!(
        debit_all(&mut tokens, &vec![coin(4, "uluna"), coin(2, "uusd"), coin(6, "uluna")]),
        Ok(())
    );
    assert_eq!(tokens, vec![coin(0, "uluna"), coin(0, "uusd")]);
}

#[test]
fn the_reserved_denomination_is_told() {
    assert!(is_reserved(&"cw20".to_string()));
    assert!(!is_reserved(&"cw2".to_string()));
    assert!(!is_reserved(&"CW20".to_string()));
    assert!(!is_reserved(&"uluna".to_string()));
    assert!(has_reserved(&vec![coin(1, "uluna"), coin(0, "cw20")]));
    assert!(!has_reserved(&vec![coin(1, "uluna")]));
    assert!(!has_reserved(&vec![]));
}

#[test]
fn merge_one_overwrites_or_appends() {
    let mut recipients = vec![recipient("bob", 60), recipient("carol", 40)];
    assert!(!merge_one(&mut recipients, &recipient("carol", 10)));
    assert_eq!(recipients, vec![recipient("bob", 60), recipient("carol", 10)]);
    assert!(merge_one(&mut recipients, &recipient("dave", 90)));
    assert_eq!(
        recipients,
        vec![recipient("bob", 60), recipient("carol", 10), recipient("dave", 90)]
    );
    let mut twice = vec![recipient("bob", 1), recipient("carol", 2), recipient("bob", 3)];
    assert!(!merge_one(&mut twice, &recipient("bob", 7)));
    assert_eq!(twice, vec![recipient("bob", 7), recipient("carol", 2), recipient("bob", 7)]);
}

#[test]
fn recipients_are_resolved_and_accepted() {
    let proposed = vec![unparsed("bob", 60), unparsed("Carol", 30), unparsed("DAVE", 10)];
    let entries = resolve_recipients(&lower_case_only, &proposed);
    assert_eq!(
        entries,
        vec![
            Ok(recipient("bob", 60)),
            Err("not an address: Carol".to_string()),
            Err("not an address: DAVE".to_string()),
        ]
    );
    assert_eq!(
        accept_recipients(&entries),
        Err(ContractError::Std("not an address: Carol".to_string()))
    );
    assert_eq!(
        validate_recipients(&lower_case_only, &proposed),
        Err(ContractError::Std("not an address: Carol".to_string()))
    );
    let proposed = vec![unparsed("bob", 60), unparsed("Carol", 50)];
    assert_eq!(
        validate_recipients(&lower_case_only, &proposed),
        Err(ContractError::Std("not an address: Carol".to_string()))
    );
    let proposed = vec![unparsed("bob", 60), unparsed("carol", 40)];
    assert_eq!(
        validate_recipients(&lower_case_only, &proposed),
        Ok(vec![recipient("bob", 60), recipient("carol", 40)])
    );
    let proposed = vec![unparsed("bob", 60), unparsed("carol", 41)];
    assert_eq!(
        validate_recipients(&lower_case_only, &proposed),
        Err(ContractError::InvalidRecipients {})
    );
    assert_eq!(
        accept_recipients(&vec![Ok(recipient("bob", 100)), Ok(recipient("bob", 0))]),
        Ok(vec![recipient("bob", 100), recipient("bob", 0)])
    );
    assert_eq!(accept_recipients(&vec![]), Err(ContractError::InvalidRecipients {}));
    assert_eq!(
        accept_recipients(&vec![Ok(recipient("bob", u128::MAX)), Ok(recipient("carol", 101))]),
        Err(ContractError::InvalidRecipients {})
    );
    let resolver = |text: &String| -> Result<String, String> { Ok(format!("addr:{}", text)) };
    assert_eq!(
        validate_recipients(&resolver, &vec![unparsed("bob", 100)]),
        Ok(vec![recipient("addr:bob", 100)])
    );
}

#[test]
fn wills_are_valid_when_nothing_occurs_twice() {
    let mut will = Will::fresh("alice".to_string(), 5, 10);
    assert_eq!(
        will,
        Will {
            owner: "alice".to_string(),
            recipients: vec![],
            timestamp: 5,
            renewal_rate: 10,
            tokens: vec![]
        }
    );
    assert!(will.is_valid());
    will.recipients = vec![recipient("bob", 100), recipient("carol", 100)];
    will.tokens = vec![coin(1, "uluna"), coin(1, "uusd")];
    assert!(will.is_valid());
    will.recipients.push(recipient("bob", 0));
    assert!(!will.is_valid());
    will.recipients = vec![recipient("bob", 101)];
    assert!(!will.is_valid());
    will.recipients = vec![];
    will.tokens.push(coin(0, "uluna"));
    assert!(!will.is_valid());
    assert!(has_sound_recipients(&vec![recipient("bob", 100)]));
    assert!(!has_sound_recipients(&vec![recipient("bob", 1), recipient("bob", 1)]));
    assert!(has_distinct_denoms(&vec![coin(1, "a"), coin(1, "b"), coin(1, "c")]));
    assert!(!has_distinct_denoms(&vec![coin(1, "a"), coin(1, "b"), coin(1, "a")]));
}

#[test]
fn copies_are_equal() {
    let coins = vec![coin(1, "uluna"), coin(2, "uusd")];
    assert_eq!(clone_coins(&coins), coins);
    let recipients = vec![recipient("bob", 1), recipient("carol", 2)];
    assert_eq!(clone_recipients(&recipients), recipients);
    let texts = vec!["a".to_string(), "b".to_string()];
    assert_eq!(clone_texts(&texts), texts);
    let will = Will {
        owner: "alice".to_string(),
        recipients,
        timestamp: 1,
        renewal_rate: 2,
        tokens: coins,
    };
    assert_eq!(will.clone(), will);
    assert_eq!(coin(1, "uluna").clone(), coin(1, "uluna"));
    assert_eq!(unparsed("bob", 3).clone(), unparsed("bob", 3));
}

#[test]
fn table_keeps_one_value_per_key() {
    let mut table: Table<u32> = Table::new();
    assert!(!table.contains(&"a".to_string()));
    assert_eq!(table.get(&"a".to_string()), None);
    table.insert("a".to_string(), 1);
    table.insert("b".to_string(), 2);
    table.insert("a".to_string(), 3);
    assert_eq!(table.get(&"a".to_string()), Some(&3));
    assert_eq!(table.get(&"b".to_string()), Some(&2));
    let mut keys = table.keys();
    keys.sort();
    assert_eq!(keys, vec!["a".to_string(), "b".to_string()]);
    assert_eq!(table.remove(&"a".to_string()), Some(3));
    assert_eq!(table.remove(&"a".to_string()), None);
    assert!(!table.contains(&"a".to_string()));
    assert!(table.contains(&"b".to_string()));
    assert_eq!(table.keys(), vec!["b".to_string()]);
}

#[test]
fn will_store_loads_saves_and_deletes() {
    let mut wills = WillStore::new();
    assert_eq!(wills.load(&"alice".to_string()), None);
    assert_eq!(
        wills.load_or_default(&"alice".to_string(), 7, 99),
        Will::fresh("alice".to_string(), 7, 99)
    );
    assert!(!wills.contains(&"alice".to_string()));
    let mut will = Will::fresh("alice".to_string(), 1, 2);
    will.tokens.push(coin(5, "uluna"));
    wills.save(will.clone());
    assert_eq!(wills.load(&"alice".to_string()), Some(will.clone()));
    assert_eq!(wills.load_or_default(&"alice".to_string(), 7, 99), will);
    wills.save(Will::fresh("alice".to_string(), 3, 4));
    assert_eq!(wills.load(&"alice".to_string()), Some(Will::fresh("alice".to_string(), 3, 4)));
    wills.save(Will::fresh("zoe".to_string(), 3, 4));
    let mut owners = wills.owners();
    owners.sort();
    assert_eq!(owners, vec!["alice".to_string(), "zoe".to_string()]);
    wills.delete(&"alice".to_string());
    wills.delete(&"nobody".to_string());
    assert_eq!(wills.load(&"alice".to_string()), None);
    assert_eq!(wills.owners(), vec!["zoe".to_string()]);
}

#[test]
fn membership_index_enrolls_and_dismisses() {
    let mut index = MembershipIndex::new();
    assert_eq!(index.load(&"bob".to_string()), None);
    index.enroll(&"bob".to_string(), &"alice".to_string());
    index.enroll(&"bob".to_string(), &"zoe".to_string());
    index.enroll(&"carol".to_string(), &"alice".to_string());
    assert_eq!(
        index.load(&"bob".to_string()),
        Some(vec!["alice".to_string(), "zoe".to_string()])
    );
    index.dismiss(&"bob".to_string(), &"alice".to_string());
    assert_eq!(index.load(&"bob".to_string()), Some(vec!["zoe".to_string()]));
    assert_eq!(index.load(&"carol".to_string()), Some(vec!["alice".to_string()]));
    index.dismiss(&"dave".to_string(), &"alice".to_string());
    assert_eq!(index.load(&"dave".to_string()), Some(vec![]));
    index.save("erin".to_string(), vec!["x".to_string(), "y".to_string(), "x".to_string()]);
    index.dismiss(&"erin".to_string(), &"x".to_string());
    assert_eq!(index.load(&"erin".to_string()), Some(vec!["y".to_string()]));
    let mut recipients = index.recipients();
    recipients.sort();
    assert_eq!(
        recipients,
        vec!["bob".to_string(), "carol".to_string(), "dave".to_string(), "erin".to_string()]
    );
}

#[test]
fn a_new_store_is_empty() {
    let store = Store::new();
    assert_eq!(store.state, None);
    assert_eq!(store.wills.owners(), Vec::<String>::new());
    assert_eq!(store.memberships.recipients(), Vec::<String>::new());
}

#[test]
fn errors_are_reported_by_their_names() {
    assert_eq!(ContractError::Std("why".to_string()).message(), "why");
    assert_eq!(ContractError::Unauthorized {}.message(), "Unauthorized");
    assert_eq!(ContractError::InsufficientFunds {}.message(), "InsufficientFunds");
    assert_eq!(ContractError::NonExistentWill {}.message(), "NonExistentWill");
    assert_eq!(ContractError::InvalidRecipients {}.message(), "InvalidRecipients");
    assert_eq!(ContractError::NotClaimable {}.message(), "NotClaimable");
    assert_eq!(ContractError::InvalidTokenDenom {}.message(), "InvalidTokenDenom");
}

#[test]
fn responses_are_built_in_order() {
    let response = Response::new()
        .add_attribute("a", "1")
        .add_message(Transfer { to_address: "x".to_string(), amount: vec![coin(1, "uluna")] })
        .add_attribute("b", "2")
        .add_messages(vec![
            Transfer { to_address: "y".to_string(), amount: vec![] },
            Transfer { to_address: "z".to_string(), amount: vec![coin(2, "uusd")] },
        ]);
    assert_eq!(
        response,
        Response {
            attributes: vec![
                Attribute { key: "a".to_string(), value: "1".to_string() },
                Attribute { key: "b".to_string(), value: "2".to_string() },
            ],
            messages: vec![
                Transfer { to_address: "x".to_string(), amount: vec![coin(1, "uluna")] },
                Transfer { to_address: "y".to_string(), amount: vec![] },
                Transfer { to_address: "z".to_string(), amount: vec![coin(2, "uusd")] },
            ],
        }
    );
    assert_eq!(Response::new(), Response { attributes: vec![], messages: vec![] });
}

#[test]
fn requests_tell_whether_they_renew_the_will() {
    assert!(ExecuteMsg::ResetTimestamp {}.refreshes_liveness());
    assert!(ExecuteMsg::DepositTokens {}.refreshes_liveness());
    assert!(ExecuteMsg::SetRecipients { recipients: vec![] }.refreshes_liveness());
    assert!(ExecuteMsg::SetRenewalRate { renewal_rate: 1 }.refreshes_liveness());
    assert!(!ExecuteMsg::WithdrawTokens { tokens: vec![] }.refreshes_liveness());
    assert!(!ExecuteMsg::DistributeAssets { owner: "alice".to_string() }.refreshes_liveness());
}
