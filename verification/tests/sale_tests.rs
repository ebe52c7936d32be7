use crowdfund::contract::Crowdfund;
use crowdfund::error::ContractError;
use crowdfund::types::BlockInfo;
use crowdfund::types::Coin;
use crowdfund::types::CrowdfundMintMsg;
use crowdfund::types::Expiration;
use crowdfund::types::RateInfo;
use crowdfund::types::Recipient;

fn coins(amount: u128, denom: &str) -> Vec<Coin> {
    vec![Coin { denom: denom.to_string(), amount }]
}

fn no_rates(price: u128) -> RateInfo {
    RateInfo { msgs: Vec::new(), remaining_amount: price, tax_amount: 0 }
}

fn mint_msg(id: &str) -> CrowdfundMintMsg {
    CrowdfundMintMsg { token_id: id.to_string(), owner: None, token_uri: None }
}

fn recipient(addr: &str) -> Recipient {
    Recipient { address: addr.to_string(), msg: None }
}

fn block(height: u64) -> BlockInfo {
    BlockInfo { height, time: height * 1_000_000_000 }
}

fn fresh() -> Crowdfund {
    Crowdfund::instantiate("creator".to_string(), "registry".to_string(), true)
}

/// Sets up a contract with `n` minted tokens and an open sale.
fn with_sale(n: usize, price: u128, min_sold: u128, max_per_wallet: u32) -> Crowdfund {
    let mut c = fresh();
    let sender = "creator".to_string();
    let contract_addr = "sale_contract".to_string();
    let msgs: Vec<CrowdfundMintMsg> =
        (0..n).map(|i| mint_msg(&format!("token{:03}", i))).collect();
    c.execute_mint(&sender, &Vec::new(), &contract_addr, msgs).unwrap();
    c.execute_start_sale(
        &sender,
        &Vec::new(),
        &block(1),
        Expiration::AtHeight(100),
        Coin { denom: "uusd".to_string(), amount: price },
        min_sold,
        Some(max_per_wallet),
        recipient("beneficiary"),
    )
    .unwrap();
    c
}

#[test]
fn instantiate_starts_idle() {
    let c = fresh();
    assert!(c.query_state().is_none());
    assert_eq!(c.query_config().token_address, "registry");
    assert!(c.query_config().can_mint_after_sale);
}

#[test]
fn mint_marks_contract_owned_tokens_available() {
    let mut c = fresh();
    let sender = "creator".to_string();
    let contract_addr = "sale_contract".to_string();
    let msgs = vec![
        mint_msg("a"),
        CrowdfundMintMsg {
            token_id: "b".to_string(),
            owner: Some("collector".to_string()),
            token_uri: None,
        },
    ];
    let out = c.execute_mint(&sender, &Vec::new(), &contract_addr, msgs).unwrap();
    assert_eq!(out.len(), 2);
    assert_eq!(out[0].owner, "sale_contract");
    assert_eq!(out[1].owner, "collector");
    // Only the token owned by the sale contract is up for sale.
    assert!(c.query_is_token_available(&"a".to_string()));
    assert!(!c.query_is_token_available(&"b".to_string()));
}

#[test]
fn mint_keeps_one_entry_per_token_id() {
    // Minting the same identifier twice leaves a single pool entry, so
    // the cached cardinality stays the true set size.
    let mut c = fresh();
    let sender = "creator".to_string();
    let contract_addr = "sale_contract".to_string();
    c.execute_mint(&sender, &Vec::new(), &contract_addr, vec![mint_msg("dup"), mint_msg("dup")])
        .unwrap();
    assert_eq!(c.query_available_tokens(None, None), vec!["dup"]);
}

#[test]
fn mint_rejects_non_owner() {
    let mut c = fresh();
    let r = c.execute_mint(
        &"mallory".to_string(),
        &Vec::new(),
        &"sale_contract".to_string(),
        vec![mint_msg("a")],
    );
    assert_eq!(r.unwrap_err(), ContractError::Unauthorized);
}

#[test]
fn mint_rejects_attached_funds() {
    let mut c = fresh();
    let r = c.execute_mint(
        &"creator".to_string(),
        &coins(5, "uusd"),
        &"sale_contract".to_string(),
        vec![mint_msg("a")],
    );
    assert_eq!(r.unwrap_err(), ContractError::InvalidFunds);
}

#[test]
fn mint_rejects_oversized_batch() {
    let mut c = fresh();
    let msgs: Vec<CrowdfundMintMsg> =
        (0..101).map(|i| mint_msg(&format!("t{}", i))).collect();
    let r = c.execute_mint(&"creator".to_string(), &Vec::new(), &"sale_contract".to_string(), msgs);
    assert_eq!(r.unwrap_err(), ContractError::TooManyMintMessages { limit: 100 });
}

#[test]
fn mint_rejects_during_sale() {
    let mut c = with_sale(2, 10, 1, 5);
    let r = c.execute_mint(
        &"creator".to_string(),
        &Vec::new(),
        &"sale_contract".to_string(),
        vec![mint_msg("late")],
    );
    assert_eq!(r.unwrap_err(), ContractError::SaleStarted);
}

#[test]
fn mint_after_sale_obeys_config() {
    // A config that forbids minting once a sale has been conducted.
    let mut c = Crowdfund::instantiate("creator".to_string(), "registry".to_string(), false);
    let sender = "creator".to_string();
    let contract_addr = "sale_contract".to_string();
    c.execute_mint(&sender, &Vec::new(), &contract_addr, vec![mint_msg("a")]).unwrap();
    c.execute_start_sale(
        &sender,
        &Vec::new(),
        &block(1),
        Expiration::AtHeight(100),
        Coin { denom: "uusd".to_string(), amount: 10 },
        5,
        Some(1),
        recipient("beneficiary"),
    )
    .unwrap();
    // Drain the failed sale so the state clears.
    let r = c.execute_end_sale(&Vec::new(), &block(200), None).unwrap();
    assert_eq!(r.burns.len(), 1);
    assert!(c.query_state().is_none());
    let r = c.execute_mint(&sender, &Vec::new(), &contract_addr, vec![mint_msg("b")]);
    assert_eq!(r.unwrap_err(), ContractError::CannotMintAfterSaleConducted);
}

#[test]
fn start_sale_rejects_never_and_past_deadlines() {
    let mut c = fresh();
    let sender = "creator".to_string();
    let r = c.execute_start_sale(
        &sender,
        &Vec::new(),
        &block(10),
        Expiration::Never,
        Coin { denom: "uusd".to_string(), amount: 10 },
        1,
        None,
        recipient("beneficiary"),
    );
    assert_eq!(r.unwrap_err(), ContractError::ExpirationMustNotBeNever);
    let r = c.execute_start_sale(
        &sender,
        &Vec::new(),
        &block(10),
        Expiration::AtHeight(5),
        Coin { denom: "uusd".to_string(), amount: 10 },
        1,
        None,
        recipient("beneficiary"),
    );
    assert_eq!(r.unwrap_err(), ContractError::ExpirationInPast);
}

#[test]
fn start_sale_rejects_second_sale() {
    let mut c = with_sale(1, 10, 1, 5);
    let r = c.execute_start_sale(
        &"creator".to_string(),
        &Vec::new(),
        &block(2),
        Expiration::AtHeight(100),
        Coin { denom: "uusd".to_string(), amount: 10 },
        1,
        None,
        recipient("beneficiary"),
    );
    assert_eq!(r.unwrap_err(), ContractError::SaleStarted);
}

#[test]
fn start_sale_rejects_non_owner() {
    let mut c = fresh();
    let r = c.execute_start_sale(
        &"mallory".to_string(),
        &Vec::new(),
        &block(1),
        Expiration::AtHeight(100),
        Coin { denom: "uusd".to_string(), amount: 10 },
        1,
        None,
        recipient("beneficiary"),
    );
    assert_eq!(r.unwrap_err(), ContractError::Unauthorized);
}

#[test]
fn purchase_without_sale_fails() {
    let mut c = fresh();
    let r = c.execute_purchase(
        &"buyer".to_string(),
        &coins(10, "uusd"),
        &block(1),
        Some(1),
        &no_rates(10),
    );
    assert_eq!(r.unwrap_err(), ContractError::NoOngoingSale);
}

#[test]
fn purchase_after_expiry_fails() {
    let mut c = with_sale(2, 10, 1, 5);
    let r = c.execute_purchase(
        &"buyer".to_string(),
        &coins(10, "uusd"),
        &block(100),
        Some(1),
        &no_rates(10),
    );
    assert_eq!(r.unwrap_err(), ContractError::NoOngoingSale);
}

#[test]
fn purchase_reserves_cheapest_count() {
    // The number reserved is the least of wanted, allowance and stock.
    let mut c = with_sale(2, 10, 1, 5);
    let resp = c
        .execute_purchase(
            &"buyer".to_string(),
            &coins(50, "uusd"),
            &block(2),
            Some(5),
            &no_rates(10),
        )
        .unwrap();
    // Only 2 tokens existed: 20uusd were required, 30uusd come back.
    assert_eq!(resp.refund.len(), 1);
    assert_eq!(resp.refund[0].amount, 30);
    assert_eq!(resp.refund[0].denom, "uusd");
    let st = c.query_state().as_ref().unwrap();
    assert_eq!(st.amount_sold, 2);
    assert_eq!(st.amount_to_send, 20);
    assert!(!c.query_is_token_available(&"token000".to_string()));
    assert!(!c.query_is_token_available(&"token001".to_string()));
}

#[test]
fn purchase_with_insufficient_funds_fails() {
    let mut c = with_sale(3, 10, 1, 5);
    let r = c.execute_purchase(
        &"buyer".to_string(),
        &coins(19, "uusd"),
        &block(2),
        Some(2),
        &no_rates(10),
    );
    assert_eq!(r.unwrap_err(), ContractError::InsufficientFunds);
}

#[test]
fn purchase_with_wrong_denom_fails() {
    let mut c = with_sale(3, 10, 1, 5);
    let r = c.execute_purchase(
        &"buyer".to_string(),
        &coins(100, "uluna"),
        &block(2),
        Some(1),
        &no_rates(10),
    );
    assert_eq!(r.unwrap_err(), ContractError::InsufficientFunds);
}

#[test]
fn purchase_applies_tax_per_unit() {
    let mut c = with_sale(3, 10, 1, 5);
    let rates = RateInfo { msgs: Vec::new(), remaining_amount: 10, tax_amount: 3 };
    // Two units cost 2 * (10 + 3) = 26; 30 are attached, 4 come back.
    let resp = c
        .execute_purchase(&"buyer".to_string(), &coins(30, "uusd"), &block(2), Some(2), &rates)
        .unwrap();
    assert_eq!(resp.refund.len(), 1);
    assert_eq!(resp.refund[0].amount, 4);
    // Exactly 26 attached: nothing comes back.
    let resp = c
        .execute_purchase(&"second".to_string(), &coins(13, "uusd"), &block(3), Some(1), &rates)
        .unwrap();
    assert!(resp.refund.is_empty());
}

#[test]
fn purchase_when_sold_out_fails() {
    let mut c = with_sale(1, 10, 1, 5);
    c.execute_purchase(&"a".to_string(), &coins(10, "uusd"), &block(2), Some(1), &no_rates(10))
        .unwrap();
    let r = c.execute_purchase(
        &"b".to_string(),
        &coins(10, "uusd"),
        &block(3),
        Some(1),
        &no_rates(10),
    );
    assert_eq!(r.unwrap_err(), ContractError::AllTokensPurchased);
}

#[test]
fn purchase_by_token_id_picks_the_named_token() {
    let mut c = with_sale(3, 10, 1, 5);
    c.execute_purchase_by_token_id(
        &"buyer".to_string(),
        &coins(10, "uusd"),
        &block(2),
        "token001".to_string(),
        &no_rates(10),
    )
    .unwrap();
    assert!(c.query_is_token_available(&"token000".to_string()));
    assert!(!c.query_is_token_available(&"token001".to_string()));
    assert!(c.query_is_token_available(&"token002".to_string()));
}

#[test]
fn purchase_by_token_id_rejects_missing_token() {
    let mut c = with_sale(2, 10, 1, 5);
    let r = c.execute_purchase_by_token_id(
        &"buyer".to_string(),
        &coins(10, "uusd"),
        &block(2),
        "elsewhere".to_string(),
        &no_rates(10),
    );
    assert_eq!(r.unwrap_err(), ContractError::TokenNotAvailable);
    // A token already sold is gone too.
    c.execute_purchase_by_token_id(
        &"buyer".to_string(),
        &coins(10, "uusd"),
        &block(2),
        "token000".to_string(),
        &no_rates(10),
    )
    .unwrap();
    let r = c.execute_purchase_by_token_id(
        &"other".to_string(),
        &coins(10, "uusd"),
        &block(3),
        "token000".to_string(),
        &no_rates(10),
    );
    assert_eq!(r.unwrap_err(), ContractError::TokenNotAvailable);
}

#[test]
fn query_available_tokens_paginates_in_key_order() {
    let c = with_sale(5, 10, 1, 5);
    let all = c.query_available_tokens(None, None);
    assert_eq!(all, vec!["token000", "token001", "token002", "token003", "token004"]);
    let first_two = c.query_available_tokens(None, Some(2));
    assert_eq!(first_two, vec!["token000", "token001"]);
    let after = c.query_available_tokens(Some(&"token001".to_string()), Some(2));
    assert_eq!(after, vec!["token002", "token003"]);
    let tail = c.query_available_tokens(Some(&"token003".to_string()), None);
    assert_eq!(tail, vec!["token004"]);
}
