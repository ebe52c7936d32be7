use crowdfund::contract::Crowdfund;
use crowdfund::error::ContractError;
use crowdfund::types::BlockInfo;
use crowdfund::types::Coin;
use crowdfund::types::CrowdfundMintMsg;
use crowdfund::types::Expiration;
use crowdfund::types::FeeMsg;
use crowdfund::types::PayoutMsg;
use crowdfund::types::RateInfo;
use crowdfund::types::Recipient;

fn coins(amount: u128, denom: &str) -> Vec<Coin> {
    vec![Coin { denom: denom.to_string(), amount }]
}

fn no_rates(price: u128) -> RateInfo {
    RateInfo { msgs: Vec::new(), remaining_amount: price, tax_amount: 0 }
}

fn block(height: u64) -> BlockInfo {
    BlockInfo { height, time: height * 1_000_000_000 }
}

fn with_sale(n: usize, price: u128, min_sold: u128, max_per_wallet: u32) -> Crowdfund {
    let mut c = Crowdfund::instantiate("creator".to_string(), "registry".to_string(), true);
    let sender = "creator".to_string();
    let contract_addr = "sale_contract".to_string();
    let mut start = 0;
    while start < n {
        let end = if n - start > 100 { start + 100 } else { n };
        let batch: Vec<CrowdfundMintMsg> = (start..end)
            .map(|i| CrowdfundMintMsg {
                token_id: format!("token{:03}", i),
                owner: None,
                token_uri: None,
            })
            .collect();
        c.execute_mint(&sender, &Vec::new(), &contract_addr, batch).unwrap();
        start = end;
    }
    c.execute_start_sale(
        &sender,
        &Vec::new(),
        &block(1),
        Expiration::AtHeight(100),
        Coin { denom: "uusd".to_string(), amount: price },
        min_sold,
        Some(max_per_wallet),
        Recipient { address: "beneficiary".to_string(), msg: None },
    )
    .unwrap();
    c
}

#[test]
fn sell_out_success_pays_and_delivers() {
    // Three items, minimum two; A buys two, B buys one; the pool empties,
    // so the sale is closable before its deadline.  Settlement delivers
    // all three items, pays the beneficiary 30uusd, and clears the state.
    let mut c = with_sale(3, 10, 2, 5);
    c.execute_purchase(&"buyer_a".to_string(), &coins(20, "uusd"), &block(2), Some(2), &no_rates(10))
        .unwrap();
    c.execute_purchase(&"buyer_b".to_string(), &coins(10, "uusd"), &block(3), Some(1), &no_rates(10))
        .unwrap();
    assert!(c.query_available_tokens(None, None).is_empty());
    // First settlement call: payout and all three deliveries.
    let r1 = c.execute_end_sale(&Vec::new(), &block(4), None).unwrap();
    match r1.payout {
        Some(PayoutMsg::Direct { to_address, denom, amount }) => {
            assert_eq!(to_address, "beneficiary");
            assert_eq!(denom, "uusd");
            assert_eq!(amount, 30);
        },
        other => panic!("expected a direct payout, got {:?}", other),
    }
    assert_eq!(r1.transfers.len(), 3);
    assert_eq!(r1.transfers[0].recipient, "buyer_a");
    assert_eq!(r1.transfers[0].token_id, "token000");
    assert_eq!(r1.transfers[1].recipient, "buyer_a");
    assert_eq!(r1.transfers[1].token_id, "token001");
    assert_eq!(r1.transfers[2].recipient, "buyer_b");
    assert_eq!(r1.transfers[2].token_id, "token002");
    assert!(r1.refunds.is_empty());
    assert!(r1.burns.is_empty());
    // Second call finds nothing left to burn and clears the sale.
    let r2 = c.execute_end_sale(&Vec::new(), &block(5), None).unwrap();
    assert!(r2.payout.is_none());
    assert!(r2.burns.is_empty());
    assert!(c.query_state().is_none());
}

#[test]
fn failure_refunds_burns_and_clears_in_one_call() {
    // Five items, minimum three, one unit sold: after expiry a single
    // settlement call refunds the buyer price plus tax, burns the four
    // unsold items and clears the state.
    let mut c = with_sale(5, 10, 3, 5);
    let rates = RateInfo { msgs: Vec::new(), remaining_amount: 10, tax_amount: 2 };
    c.execute_purchase(&"buyer".to_string(), &coins(12, "uusd"), &block(2), Some(1), &rates)
        .unwrap();
    let r = c.execute_end_sale(&Vec::new(), &block(200), Some(10)).unwrap();
    assert_eq!(r.refunds.len(), 1);
    assert_eq!(r.refunds[0].to_address, "buyer");
    assert_eq!(r.refunds[0].denom, "uusd");
    assert_eq!(r.refunds[0].amount, 12);
    assert_eq!(r.burns.len(), 4);
    assert_eq!(r.burns[0].token_id, "token001");
    assert_eq!(r.burns[3].token_id, "token004");
    assert!(r.payout.is_none());
    assert!(r.transfers.is_empty());
    assert!(c.query_state().is_none());
}

#[test]
fn purchase_limit_blocks_second_attempt() {
    // One unit per wallet: a first call asking for two gets one; asking
    // again fails with the purchase-limit error.
    let mut c = with_sale(3, 10, 1, 1);
    let resp = c
        .execute_purchase(&"buyer".to_string(), &coins(20, "uusd"), &block(2), Some(2), &no_rates(10))
        .unwrap();
    assert_eq!(resp.refund.len(), 1);
    assert_eq!(resp.refund[0].amount, 10);
    let r = c.execute_purchase(
        &"buyer".to_string(),
        &coins(10, "uusd"),
        &block(3),
        Some(1),
        &no_rates(10),
    );
    assert_eq!(r.unwrap_err(), ContractError::PurchaseLimitReached);
}

#[test]
fn partial_batches_drain_exactly_fifty_buyers_per_call() {
    // 150 distinct buyers, one purchase each, in a failed sale; three
    // calls with limit 50 drain 50 buyers each, and only the third also
    // finds the burn backlog empty and clears the state.
    let mut c = with_sale(150, 10, 1000, 1);
    for i in 0..150u32 {
        let buyer = format!("buyer{:03}", i);
        c.execute_purchase(&buyer, &coins(10, "uusd"), &block(2), Some(1), &no_rates(10))
            .unwrap();
    }
    assert!(c.query_available_tokens(None, None).is_empty());
    let r1 = c.execute_end_sale(&Vec::new(), &block(200), Some(50)).unwrap();
    assert_eq!(r1.refunds.len(), 50);
    assert_eq!(r1.refunds[0].to_address, "buyer000");
    assert_eq!(r1.refunds[49].to_address, "buyer049");
    assert!(c.query_state().is_some());
    let r2 = c.execute_end_sale(&Vec::new(), &block(201), Some(50)).unwrap();
    assert_eq!(r2.refunds.len(), 50);
    assert_eq!(r2.refunds[0].to_address, "buyer050");
    assert!(c.query_state().is_some());
    let r3 = c.execute_end_sale(&Vec::new(), &block(202), Some(50)).unwrap();
    assert_eq!(r3.refunds.len(), 50);
    assert_eq!(r3.refunds[49].to_address, "buyer149");
    assert!(c.query_state().is_none());
}

#[test]
fn refund_totals_agree_across_batchings() {
    // Two identical failed sales, drained with different batch sizes,
    // refund the same buyers the same amounts and end in the same state.
    let build = || {
        let mut c = with_sale(6, 10, 100, 3);
        let rates = RateInfo { msgs: Vec::new(), remaining_amount: 10, tax_amount: 4 };
        c.execute_purchase(&"pat".to_string(), &coins(28, "uusd"), &block(2), Some(2), &rates)
            .unwrap();
        c.execute_purchase(&"quinn".to_string(), &coins(42, "uusd"), &block(3), Some(3), &rates)
            .unwrap();
        c.execute_purchase(&"robin".to_string(), &coins(14, "uusd"), &block(4), Some(1), &rates)
            .unwrap();
        c
    };
    let mut one = build();
    let mut many = build();
    let r = one.execute_end_sale(&Vec::new(), &block(200), Some(10)).unwrap();
    let mut whole: Vec<(String, u128)> =
        r.refunds.iter().map(|m| (m.to_address.clone(), m.amount)).collect();
    let mut split: Vec<(String, u128)> = Vec::new();
    for h in [200u64, 201, 202, 203] {
        let r = many.execute_end_sale(&Vec::new(), &block(h), Some(1)).unwrap();
        for m in r.refunds {
            split.push((m.to_address, m.amount));
        }
        if many.query_state().is_none() {
            break;
        }
    }
    assert_eq!(whole, split);
    let total: u128 = whole.drain(..).map(|(_, a)| a).sum();
    assert_eq!(total, 6 * 14);
    assert!(one.query_state().is_none());
    assert!(many.query_state().is_none());
}

#[test]
fn end_sale_before_close_fails() {
    let mut c = with_sale(3, 10, 1, 5);
    let r = c.execute_end_sale(&Vec::new(), &block(50), None);
    assert_eq!(r.unwrap_err(), ContractError::SaleNotEnded);
}

#[test]
fn end_sale_without_sale_fails() {
    let mut c = Crowdfund::instantiate("creator".to_string(), "registry".to_string(), true);
    let r = c.execute_end_sale(&Vec::new(), &block(50), None);
    assert_eq!(r.unwrap_err(), ContractError::NoOngoingSale);
}

#[test]
fn end_sale_with_zero_limit_fails() {
    let mut c = with_sale(3, 10, 5, 5);
    let r = c.execute_end_sale(&Vec::new(), &block(200), Some(0));
    assert_eq!(r.unwrap_err(), ContractError::LimitMustNotBeZero);
}

#[test]
fn refunds_come_in_ascending_buyer_order() {
    // Buyers purchase in scrambled order; refunds walk them by key.
    let mut c = with_sale(4, 10, 100, 1);
    for name in ["delta", "alpha", "charlie", "bravo"] {
        c.execute_purchase(&name.to_string(), &coins(10, "uusd"), &block(2), Some(1), &no_rates(10))
            .unwrap();
    }
    let r = c.execute_end_sale(&Vec::new(), &block(200), None).unwrap();
    let names: Vec<&str> = r.refunds.iter().map(|m| m.to_address.as_str()).collect();
    assert_eq!(names, vec!["alpha", "bravo", "charlie", "delta"]);
}

#[test]
fn deliveries_resume_where_the_last_batch_stopped() {
    // Nine units sold by three buyers; batches of four deliver the same
    // records, in the same order, as one large batch would.
    let mut c = with_sale(9, 10, 1, 3);
    for name in ["ann", "bob", "cec"] {
        c.execute_purchase(&name.to_string(), &coins(30, "uusd"), &block(2), Some(3), &no_rates(10))
            .unwrap();
    }
    let r1 = c.execute_end_sale(&Vec::new(), &block(3), Some(4)).unwrap();
    let r2 = c.execute_end_sale(&Vec::new(), &block(4), Some(4)).unwrap();
    let r3 = c.execute_end_sale(&Vec::new(), &block(5), Some(4)).unwrap();
    assert_eq!(r1.transfers.len(), 4);
    assert_eq!(r2.transfers.len(), 4);
    assert_eq!(r3.transfers.len(), 1);
    let mut owners: Vec<String> = Vec::new();
    for t in r1.transfers.iter().chain(r2.transfers.iter()).chain(r3.transfers.iter()) {
        owners.push(t.recipient.clone());
    }
    assert_eq!(
        owners,
        vec!["ann", "ann", "ann", "bob", "bob", "bob", "cec", "cec", "cec"]
    );
    // Payout went with the first call; the sale clears once burns run dry.
    assert!(r1.payout.is_some());
    assert!(r2.payout.is_none());
    let r4 = c.execute_end_sale(&Vec::new(), &block(6), Some(4)).unwrap();
    assert!(r4.transfers.is_empty());
    assert!(c.query_state().is_none());
}

#[test]
fn delivery_emits_stored_fee_instructions() {
    let mut c = with_sale(2, 10, 1, 5);
    let rates = RateInfo {
        msgs: vec![FeeMsg { payload: vec![1, 2, 3] }],
        remaining_amount: 8,
        tax_amount: 0,
    };
    c.execute_purchase(&"buyer".to_string(), &coins(20, "uusd"), &block(2), Some(2), &rates)
        .unwrap();
    let r = c.execute_end_sale(&Vec::new(), &block(3), None).unwrap();
    assert_eq!(r.transfers.len(), 2);
    // One stored fee instruction per delivered unit.
    assert_eq!(r.fee_msgs.len(), 2);
    assert_eq!(r.fee_msgs[0].payload, vec![1, 2, 3]);
    assert_eq!(r.fee_msgs[1].payload, vec![1, 2, 3]);
    // The payout carries only the remainder after deductions.
    match r.payout {
        Some(PayoutMsg::Direct { amount, .. }) => assert_eq!(amount, 16),
        other => panic!("expected a direct payout, got {:?}", other),
    }
}

#[test]
fn routed_payout_carries_the_declared_payload() {
    let mut c = Crowdfund::instantiate("creator".to_string(), "registry".to_string(), true);
    let sender = "creator".to_string();
    c.execute_mint(
        &sender,
        &Vec::new(),
        &"sale_contract".to_string(),
        vec![CrowdfundMintMsg { token_id: "only".to_string(), owner: None, token_uri: None }],
    )
    .unwrap();
    c.execute_start_sale(
        &sender,
        &Vec::new(),
        &block(1),
        Expiration::AtHeight(100),
        Coin { denom: "uusd".to_string(), amount: 10 },
        1,
        Some(1),
        Recipient { address: "beneficiary".to_string(), msg: Some(vec![9, 9]) },
    )
    .unwrap();
    c.execute_purchase(&"buyer".to_string(), &coins(10, "uusd"), &block(2), Some(1), &no_rates(10))
        .unwrap();
    let r = c.execute_end_sale(&Vec::new(), &block(3), None).unwrap();
    match r.payout {
        Some(PayoutMsg::Routed { address, msg, denom, amount }) => {
            assert_eq!(address, "beneficiary");
            assert_eq!(msg, vec![9, 9]);
            assert_eq!(denom, "uusd");
            assert_eq!(amount, 10);
        },
        other => panic!("expected a routed payout, got {:?}", other),
    }
}

#[test]
fn claim_refund_settles_one_buyer_early() {
    let mut c = with_sale(3, 10, 5, 2);
    let rates = RateInfo { msgs: Vec::new(), remaining_amount: 10, tax_amount: 1 };
    c.execute_purchase(&"early".to_string(), &coins(22, "uusd"), &block(2), Some(2), &rates)
        .unwrap();
    c.execute_purchase(&"other".to_string(), &coins(11, "uusd"), &block(3), Some(1), &rates)
        .unwrap();
    let m = c
        .execute_claim_refund(&"early".to_string(), &Vec::new(), &block(200))
        .unwrap()
        .unwrap();
    assert_eq!(m.to_address, "early");
    assert_eq!(m.amount, 22);
    // Claiming twice finds no purchases.
    let r = c.execute_claim_refund(&"early".to_string(), &Vec::new(), &block(201));
    assert_eq!(r.unwrap_err(), ContractError::NoPurchases);
    // The batch sweep still covers the other buyer.
    let r = c.execute_end_sale(&Vec::new(), &block(202), None).unwrap();
    assert_eq!(r.refunds.len(), 1);
    assert_eq!(r.refunds[0].to_address, "other");
    assert_eq!(r.refunds[0].amount, 11);
}

#[test]
fn claim_refund_guards_its_window() {
    let mut c = with_sale(2, 10, 5, 2);
    c.execute_purchase(&"buyer".to_string(), &coins(10, "uusd"), &block(2), Some(1), &no_rates(10))
        .unwrap();
    // Not expired yet.
    let r = c.execute_claim_refund(&"buyer".to_string(), &Vec::new(), &block(50));
    assert_eq!(r.unwrap_err(), ContractError::SaleNotEnded);
    // No sale at all.
    let mut idle = Crowdfund::instantiate("creator".to_string(), "registry".to_string(), true);
    let r = idle.execute_claim_refund(&"buyer".to_string(), &Vec::new(), &block(50));
    assert_eq!(r.unwrap_err(), ContractError::NoOngoingSale);
}

#[test]
fn claim_refund_rejects_successful_sales() {
    let mut c = with_sale(2, 10, 1, 2);
    c.execute_purchase(&"buyer".to_string(), &coins(20, "uusd"), &block(2), Some(2), &no_rates(10))
        .unwrap();
    let r = c.execute_claim_refund(&"buyer".to_string(), &Vec::new(), &block(200));
    assert_eq!(r.unwrap_err(), ContractError::MinSalesExceeded);
}

#[test]
fn engine_rearms_for_a_new_sale() {
    // A failed sale clears completely and a fresh sale can run after it.
    let mut c = with_sale(2, 10, 5, 2);
    c.execute_purchase(&"buyer".to_string(), &coins(10, "uusd"), &block(2), Some(1), &no_rates(10))
        .unwrap();
    c.execute_end_sale(&Vec::new(), &block(200), None).unwrap();
    assert!(c.query_state().is_none());
    let sender = "creator".to_string();
    c.execute_mint(
        &sender,
        &Vec::new(),
        &"sale_contract".to_string(),
        vec![CrowdfundMintMsg { token_id: "fresh".to_string(), owner: None, token_uri: None }],
    )
    .unwrap();
    c.execute_start_sale(
        &sender,
        &Vec::new(),
        &block(300),
        Expiration::AtHeight(400),
        Coin { denom: "uusd".to_string(), amount: 7 },
        1,
        Some(1),
        Recipient { address: "beneficiary".to_string(), msg: None },
    )
    .unwrap();
    c.execute_purchase(&"buyer".to_string(), &coins(7, "uusd"), &block(301), Some(1), &no_rates(7))
        .unwrap();
    let r = c.execute_end_sale(&Vec::new(), &block(302), None).unwrap();
    assert_eq!(r.transfers.len(), 1);
    assert_eq!(r.transfers[0].token_id, "fresh");
}
