use marketplace::contract::{
    execute, instantiate, parse_offering, query, query_count, query_offerings, try_increment,
    try_receive, try_receive_nft, try_reset, try_withdraw, Marketplace, QueryResponse, Response,
    TransferMsg,
};
use marketplace::error::ContractError;
use marketplace::msg::{BuyNft, HandleMsg, InitMsg, NftReceipt, QueryMsg, SellNft, TokenReceipt};
use marketplace::package::OfferingResponse;
use marketplace::state::{Offering, Price, State};

fn offerings_of(deps: &Marketplace) -> OfferingResponse {
    match query(deps, QueryMsg::GetOfferings {}).unwrap() {
        QueryResponse::Offerings(o) => o,
        QueryResponse::Count(_) => panic!("expected the listings"),
    }
}

fn sell(sender: &str, token_id: &str, token: &str, amount: u128) -> HandleMsg {
    HandleMsg::ReceiveNft(NftReceipt {
        sender: String::from(sender),
        token_id: String::from(token_id),
        msg: SellNft { list_price: Price { address: String::from(token), amount } },
    })
}

fn buy(buyer: &str, amount: u128, offering_id: &str) -> HandleMsg {
    HandleMsg::Receive(TokenReceipt {
        sender: String::from(buyer),
        amount,
        msg: BuyNft { offering_id: String::from(offering_id) },
    })
}

fn attr<'a>(res: &'a Response, i: usize) -> (&'a str, &'a str) {
    (res.attributes[i].key.as_str(), res.attributes[i].value.as_str())
}

#[test]
fn sell_offering_path() {
    let mut deps = Marketplace::new();

    let msg = InitMsg { count: 17, name: "test marketplace".to_string() };
    let res = instantiate(&mut deps, msg);
    assert_eq!(0, res.messages.len());

    // the asset contract "anyone" reports a deposit by "seller"
    let rcv_msg = sell("seller", "SellableNFT", "cw20ContractAddr", 5);
    let _res = execute(&mut deps, String::from("anyone"), rcv_msg).unwrap();

    let value = offerings_of(&deps);
    assert_eq!(1, value.offerings.len());

    let rcv_msg = buy("buyer", 5, &value.offerings[0].id.clone());
    let _res = execute(&mut deps, String::from("cw20ContractAddr"), rcv_msg).unwrap();

    let buy_value = offerings_of(&deps);
    assert_eq!(0, buy_value.offerings.len());
}

#[test]
fn withdraw_offering_path() {
    let mut deps = Marketplace::new();

    let msg = InitMsg { name: String::from("test market"), count: 1000 };
    let _res = instantiate(&mut deps, msg);

    let rcv_msg = sell("seller", "SellableNFT", "cw20ContractAddr", 5);
    let _res = execute(&mut deps, String::from("anyone"), rcv_msg).unwrap();

    let list_value = offerings_of(&deps);
    assert_eq!(1, list_value.offerings.len());

    let withdraw_msg =
        HandleMsg::WithdrawNft { offering_id: list_value.offerings[0].id.clone() };
    let res = execute(&mut deps, String::from("seller"), withdraw_msg).unwrap();
    assert_eq!("1", res.attributes[2].value);

    let rm_value = offerings_of(&deps);
    assert_eq!(0, rm_value.offerings.len());
}

#[test]
fn list_then_buy_scenario() {
    let mut deps = Marketplace::new();
    let res = try_receive_nft(
        &mut deps,
        String::from("C"),
        NftReceipt {
            sender: String::from("S"),
            token_id: String::from("NFT1"),
            msg: SellNft { list_price: Price { address: String::from("T"), amount: 5 } },
        },
    )
    .unwrap();
    assert!(res.messages.is_empty());
    assert_eq!(attr(&res, 0), ("action", "list"));
    assert_eq!(attr(&res, 1), ("seller", "S"));
    assert_eq!(attr(&res, 2), ("asset_contract", "C"));
    assert_eq!(attr(&res, 3), ("asset_id", "NFT1"));
    assert_eq!(attr(&res, 4), ("price", "5 T"));

    let listed = offerings_of(&deps);
    assert_eq!(listed.offerings.len(), 1);
    assert_eq!(listed.offerings[0].id, "1");
    assert_eq!(listed.offerings[0].owner, "S");
    assert_eq!(listed.offerings[0].seller, "S");
    assert_eq!(listed.offerings[0].contract_addr, "C");
    assert_eq!(listed.offerings[0].extension, "\"Offer NFT1 from S\"");

    let res = try_receive(
        &mut deps,
        String::from("T"),
        TokenReceipt {
            sender: String::from("B"),
            amount: 5,
            msg: BuyNft { offering_id: String::from("1") },
        },
    )
    .unwrap();
    assert_eq!(offerings_of(&deps).offerings.len(), 0);
    assert_eq!(
        res.messages,
        vec![
            TransferMsg::Cw20Transfer {
                contract: String::from("T"),
                recipient: String::from("S"),
                amount: 5,
            },
            TransferMsg::Cw721Transfer {
                contract: String::from("C"),
                recipient: String::from("B"),
                token_id: String::from("NFT1"),
            },
        ]
    );
    assert_eq!(attr(&res, 0), ("action", "buy"));
    assert_eq!(attr(&res, 1), ("buyer", "B"));
    assert_eq!(attr(&res, 2), ("seller", "S"));
    assert_eq!(attr(&res, 3), ("paid_price", "5 T"));
    assert_eq!(attr(&res, 4), ("asset_id", "NFT1"));
    assert_eq!(attr(&res, 5), ("asset_contract", "C"));
}

#[test]
fn list_then_withdraw_scenario() {
    let mut deps = Marketplace::new();
    execute(&mut deps, String::from("C"), sell("S", "NFT1", "T", 5)).unwrap();

    let refused =
        try_withdraw(&mut deps, String::from("mallory"), String::from("1")).unwrap_err();
    assert_eq!(refused, ContractError::Unauthorized);
    let still = offerings_of(&deps);
    assert_eq!(still.offerings.len(), 1);
    assert_eq!(still.offerings[0].id, "1");
    assert_eq!(still.offerings[0].token_id, "NFT1");

    let res = try_withdraw(&mut deps, String::from("S"), String::from("1")).unwrap();
    assert_eq!(offerings_of(&deps).offerings.len(), 0);
    assert_eq!(
        res.messages,
        vec![TransferMsg::Cw721Transfer {
            contract: String::from("C"),
            recipient: String::from("S"),
            token_id: String::from("NFT1"),
        }]
    );
    assert_eq!(attr(&res, 0), ("action", "withdraw"));
    assert_eq!(attr(&res, 1), ("seller", "S"));
    assert_eq!(attr(&res, 2), ("offering_id", "1"));
}

#[test]
fn buy_below_price_is_refused_and_keeps_listing() {
    let mut deps = Marketplace::new();
    execute(&mut deps, String::from("C"), sell("S", "NFT1", "T", 5)).unwrap();
    let err = execute(&mut deps, String::from("T"), buy("B", 4, "1")).unwrap_err();
    assert_eq!(err, ContractError::InsufficientFunds);
    let still = offerings_of(&deps);
    assert_eq!(still.offerings.len(), 1);
    assert_eq!(still.offerings[0].list_price.amount, 5);
}

#[test]
fn overpayment_goes_to_seller_in_full() {
    let mut deps = Marketplace::new();
    execute(&mut deps, String::from("C"), sell("S", "NFT1", "T", 5)).unwrap();
    let res = execute(&mut deps, String::from("T"), buy("B", 12, "1")).unwrap();
    assert_eq!(
        res.messages[0],
        TransferMsg::Cw20Transfer {
            contract: String::from("T"),
            recipient: String::from("S"),
            amount: 12,
        }
    );
    assert_eq!(attr(&res, 3), ("paid_price", "12 T"));
    assert_eq!(offerings_of(&deps).offerings.len(), 0);
}

#[test]
fn unknown_listing_is_not_found() {
    let mut deps = Marketplace::new();
    assert_eq!(
        execute(&mut deps, String::from("T"), buy("B", 5, "7")).unwrap_err(),
        ContractError::NotFound
    );
    assert_eq!(
        try_withdraw(&mut deps, String::from("S"), String::from("7")).unwrap_err(),
        ContractError::NotFound
    );
}

#[test]
fn a_sold_listing_cannot_be_bought_again() {
    let mut deps = Marketplace::new();
    execute(&mut deps, String::from("C"), sell("S", "NFT1", "T", 5)).unwrap();
    execute(&mut deps, String::from("T"), buy("B", 5, "1")).unwrap();
    assert_eq!(
        execute(&mut deps, String::from("T"), buy("B2", 5, "1")).unwrap_err(),
        ContractError::NotFound
    );
}

#[test]
fn ids_ascend_and_are_never_reused() {
    let mut deps = Marketplace::new();
    execute(&mut deps, String::from("C"), sell("S", "A", "T", 1)).unwrap();
    try_withdraw(&mut deps, String::from("S"), String::from("1")).unwrap();
    execute(&mut deps, String::from("C"), sell("S", "B", "T", 1)).unwrap();
    let listed = offerings_of(&deps);
    assert_eq!(listed.offerings.len(), 1);
    assert_eq!(listed.offerings[0].id, "2");
    assert_eq!(listed.offerings[0].token_id, "B");
}

#[test]
fn same_asset_may_be_listed_twice() {
    let mut deps = Marketplace::new();
    execute(&mut deps, String::from("C"), sell("S", "NFT1", "T", 1)).unwrap();
    execute(&mut deps, String::from("C"), sell("S", "NFT1", "T", 2)).unwrap();
    let listed = offerings_of(&deps);
    assert_eq!(listed.offerings.len(), 2);
    assert_eq!(listed.offerings[0].id, "1");
    assert_eq!(listed.offerings[1].id, "2");
}

#[test]
fn listing_order_is_lexicographic_on_ids() {
    let mut deps = Marketplace::new();
    for i in 0..11u128 {
        execute(&mut deps, String::from("C"), sell("S", &format!("N{}", i), "T", i)).unwrap();
    }
    let ids: Vec<String> = offerings_of(&deps).offerings.into_iter().map(|o| o.id).collect();
    assert_eq!(ids, vec!["1", "10", "11", "2", "3", "4", "5", "6", "7", "8", "9"]);
}

#[test]
fn extension_is_written_as_json_string() {
    let off = Offering {
        owner: String::from("o"),
        token_id: String::from("t"),
        contract_addr: String::from("c"),
        seller: String::from("s"),
        list_price: Price { address: String::from("p"), amount: 3 },
        extension: String::from("say \"hi\""),
    };
    let r = parse_offering(String::from("4"), off);
    assert_eq!(r.extension, "\"say \\\"hi\\\"\"");
    assert_eq!(r.id, "4");
    assert_eq!(r.owner, "o");
    assert_eq!(r.seller, "s");
    assert_eq!(r.contract_addr, "c");
    assert_eq!(r.token_id, "t");
    assert_eq!(r.list_price, Price { address: String::from("p"), amount: 3 });
}

#[test]
fn query_offerings_of_empty_marketplace() {
    let deps = Marketplace::new();
    assert!(query_offerings(&deps).offerings.is_empty());
}

#[test]
fn instantiate_records_name_only() {
    let mut deps = Marketplace::new();
    let res = instantiate(&mut deps, InitMsg { count: 3, name: String::from("market") });
    assert!(res.attributes.is_empty());
    assert_eq!(deps.contract_info.as_ref().unwrap().name, "market");
    assert!(deps.state.is_none());
    assert_eq!(query_count(&deps).unwrap_err(), ContractError::NotFound);
}

#[test]
fn legacy_counter_operations() {
    let mut deps = Marketplace::new();
    assert_eq!(try_increment(&mut deps).unwrap_err(), ContractError::NotFound);
    assert_eq!(
        try_reset(&mut deps, String::from("o"), 4).unwrap_err(),
        ContractError::NotFound
    );
    deps.state = Some(State { count: 1, owner: String::from("o") });
    let res = try_increment(&mut deps).unwrap();
    assert_eq!(attr(&res, 0), ("method", "try_increment"));
    assert_eq!(query_count(&deps).unwrap().count, 2);
    assert_eq!(
        try_reset(&mut deps, String::from("x"), 9).unwrap_err(),
        ContractError::Unauthorized
    );
    let res = try_reset(&mut deps, String::from("o"), 9).unwrap();
    assert_eq!(attr(&res, 0), ("method", "reset"));
    match query(&deps, QueryMsg::GetCount {}).unwrap() {
        QueryResponse::Count(c) => assert_eq!(c.count, 9),
        QueryResponse::Offerings(_) => panic!("expected the count"),
    }
    execute(&mut deps, String::from("o"), HandleMsg::Reset {}).unwrap();
    assert_eq!(query_count(&deps).unwrap().count, 0);
    execute(&mut deps, String::from("o"), HandleMsg::Increment {}).unwrap();
    assert_eq!(query_count(&deps).unwrap().count, 1);
    deps.state = Some(State { count: i32::MAX, owner: String::from("o") });
    assert_eq!(try_increment(&mut deps).unwrap_err(), ContractError::Overflow);
    assert_eq!(query_count(&deps).unwrap().count, i32::MAX);
}

#[test]
fn amounts_are_written_in_decimal() {
    let mut deps = Marketplace::new();
    let res = execute(&mut deps, String::from("C"), sell("S", "N", "T", 0)).unwrap();
    assert_eq!(attr(&res, 4), ("price", "0 T"));
    let res = execute(&mut deps, String::from("T"), buy("B", u128::MAX, "1")).unwrap();
    assert_eq!(attr(&res, 3), ("paid_price", "340282366920938463463374607431768211455 T"));
}

#[test]
fn list_with_exhausted_counter_overflows() {
    let mut deps = Marketplace::restore(None, None, u64::MAX, &vec![]).unwrap();
    assert_eq!(
        execute(&mut deps, String::from("C"), sell("S", "N", "T", 1)).unwrap_err(),
        ContractError::Overflow
    );
    assert!(offerings_of(&deps).offerings.is_empty());
}

fn stored(token_id: &str) -> Offering {
    Offering {
        owner: String::from("o"),
        token_id: String::from(token_id),
        contract_addr: String::from("c"),
        seller: String::from("o"),
        list_price: Price { address: String::from("p"), amount: 1 },
        extension: String::new(),
    }
}

#[test]
fn restore_keeps_only_issued_ids() {
    let taken = vec![(String::from("1"), stored("t"))];
    assert_eq!(
        Marketplace::restore(None, None, 0, &taken).err(),
        Some(ContractError::InvalidId)
    );
    let odd = vec![(String::from("01"), stored("t"))];
    assert_eq!(Marketplace::restore(None, None, 5, &odd).err(), Some(ContractError::InvalidId));
    let twice = vec![(String::from("2"), stored("t")), (String::from("2"), stored("u"))];
    assert_eq!(
        Marketplace::restore(None, None, 5, &twice).err(),
        Some(ContractError::DuplicateKey)
    );

    let kept = vec![(String::from("10"), stored("a")), (String::from("2"), stored("b"))];
    let mut deps = Marketplace::restore(None, None, 10, &kept).unwrap();
    execute(&mut deps, String::from("C"), sell("S", "N", "T", 1)).unwrap();
    let ids: Vec<String> = offerings_of(&deps).offerings.into_iter().map(|o| o.id).collect();
    assert_eq!(ids, vec!["10", "11", "2"]);
}

#[test]
fn indexes_track_transitions() {
    let mut deps = Marketplace::new();
    execute(&mut deps, String::from("C1"), sell("S", "A", "T", 1)).unwrap();
    execute(&mut deps, String::from("C2"), sell("S", "B", "T", 1)).unwrap();
    execute(&mut deps, String::from("C1"), sell("R", "C", "T", 1)).unwrap();
    execute(&mut deps, String::from("T"), buy("B", 1, "1")).unwrap();
    let seller_s: Vec<String> = deps
        .offerings
        .find_by_seller(&String::from("S"))
        .into_iter()
        .map(|(k, _)| k)
        .collect();
    assert_eq!(seller_s, vec!["2"]);
    let contract_c1: Vec<String> = deps
        .offerings
        .find_by_contract(&String::from("C1"))
        .into_iter()
        .map(|(k, _)| k)
        .collect();
    assert_eq!(contract_c1, vec!["3"]);
    try_withdraw(&mut deps, String::from("R"), String::from("3")).unwrap();
    assert!(deps.offerings.find_by_owner(&String::from("R")).is_empty());
    assert!(deps.offerings.find_by_contract(&String::from("C1")).is_empty());
}

#[test]
fn extension_control_characters_are_escaped() {
    let off = Offering {
        owner: String::from("o"),
        token_id: String::from("t"),
        contract_addr: String::from("c"),
        seller: String::from("s"),
        list_price: Price { address: String::from("p"), amount: 3 },
        extension: String::from("a\u{1}\n\t\u{1f}\\é"),
    };
    let r = parse_offering(String::from("1"), off);
    assert_eq!(r.extension, "\"a\\u0001\\n\\t\\u001f\\\\é\"");
}
