use marketplace::error::ContractError;
use marketplace::state::{
    increment_offerings, num_offerings, offering_owner_idx, offerings, restore, Offering, Price,
};
use marketplace::text::{decimal_string, spells_number_upto, str_lt};

fn offering(owner: &str, seller: &str, contract: &str, token_id: &str) -> Offering {
    Offering {
        owner: String::from(owner),
        token_id: String::from(token_id),
        contract_addr: String::from(contract),
        seller: String::from(seller),
        list_price: Price { address: String::from("token"), amount: 10 },
        extension: String::new(),
    }
}

#[test]
fn test_offerings() {
    let mut store = offerings();
    let owner1 = String::from("addr1");
    let contract1 = String::from("contract1");
    let extension1 = String::from("testing_addr1");
    let offering_addr1 = Offering {
        owner: owner1.clone(),
        token_id: String::from("NFT1"),
        seller: owner1.clone(),
        contract_addr: contract1.clone(),
        list_price: Price { address: owner1.clone(), amount: 1000000u128 },
        extension: extension1,
    };
    let token_id = increment_offerings(&mut store).unwrap();
    store.create(token_id.to_string(), offering_addr1.clone()).unwrap();

    let list = store.find_by_owner(&owner1);
    let (_, t) = &list[0];
    assert_eq!(t, &offering_addr1);
}

#[test]
fn indexes_follow_the_primary_map() {
    let mut store = offerings();
    store.create(String::from("1"), offering("a", "s1", "c1", "x")).unwrap();
    store.create(String::from("2"), offering("b", "s1", "c2", "y")).unwrap();
    store.create(String::from("3"), offering("a", "s2", "c1", "z")).unwrap();

    let by_owner: Vec<String> =
        store.find_by_owner(&String::from("a")).into_iter().map(|(k, _)| k).collect();
    assert_eq!(by_owner, vec!["1", "3"]);
    let by_seller: Vec<String> =
        store.find_by_seller(&String::from("s1")).into_iter().map(|(k, _)| k).collect();
    assert_eq!(by_seller, vec!["1", "2"]);
    let by_contract: Vec<String> =
        store.find_by_contract(&String::from("c2")).into_iter().map(|(k, _)| k).collect();
    assert_eq!(by_contract, vec!["2"]);

    store.remove(&String::from("1"));
    let by_owner: Vec<String> =
        store.find_by_owner(&String::from("a")).into_iter().map(|(k, _)| k).collect();
    assert_eq!(by_owner, vec!["3"]);
    assert!(store.find_by_seller(&String::from("s1")).iter().all(|(k, _)| k == "2"));
    assert!(store.find_by_owner(&String::from("nobody")).is_empty());
    assert_eq!(store.get(&String::from("1")).unwrap_err(), ContractError::NotFound);
    assert_eq!(store.get(&String::from("3")).unwrap().token_id, "z");
}

#[test]
fn duplicate_id_is_refused() {
    let mut store = offerings();
    store.create(String::from("1"), offering("a", "a", "c", "x")).unwrap();
    assert_eq!(
        store.create(String::from("1"), offering("b", "b", "c", "y")),
        Err(ContractError::DuplicateKey)
    );
    assert_eq!(store.get(&String::from("1")).unwrap().token_id, "x");
    assert_eq!(store.list_all().len(), 1);
}

#[test]
fn removing_an_absent_id_changes_nothing() {
    let mut store = offerings();
    store.create(String::from("5"), offering("a", "a", "c", "x")).unwrap();
    store.remove(&String::from("6"));
    assert_eq!(store.list_all().len(), 1);
    assert!(store.has(&String::from("5")));
    assert!(!store.has(&String::from("6")));
}

#[test]
fn list_all_orders_ids_by_text() {
    let mut store = offerings();
    for id in ["2", "10", "1", "b", "a"] {
        store.create(String::from(id), offering("o", "o", "c", id)).unwrap();
    }
    let ids: Vec<String> = store.list_all().into_iter().map(|(k, _)| k).collect();
    assert_eq!(ids, vec!["1", "10", "2", "a", "b"]);
}

#[test]
fn counter_counts_up_from_zero() {
    let mut store = offerings();
    assert_eq!(num_offerings(&store), 0);
    assert_eq!(increment_offerings(&mut store), Ok(1));
    assert_eq!(increment_offerings(&mut store), Ok(2));
    assert_eq!(num_offerings(&store), 2);
}

#[test]
fn owner_index_key_is_the_owner() {
    assert_eq!(offering_owner_idx(&offering("own", "sel", "c", "t")), "own");
}

#[test]
fn text_order() {
    assert!(str_lt("1", "10"));
    assert!(str_lt("10", "2"));
    assert!(!str_lt("2", "2"));
    assert!(str_lt("", "a"));
    assert!(!str_lt("a", ""));
}

#[test]
fn restore_rebuilds_store_and_indexes() {
    let entries = vec![
        (String::from("3"), offering("a", "s", "c", "z")),
        (String::from("1"), offering("a", "s", "d", "x")),
    ];
    let store = restore(7, &entries).unwrap();
    assert_eq!(num_offerings(&store), 7);
    let ids: Vec<String> = store.list_all().into_iter().map(|(k, _)| k).collect();
    assert_eq!(ids, vec!["1", "3"]);
    let by_contract: Vec<String> =
        store.find_by_contract(&String::from("d")).into_iter().map(|(k, _)| k).collect();
    assert_eq!(by_contract, vec!["1"]);

    let twice = vec![
        (String::from("1"), offering("a", "s", "c", "z")),
        (String::from("1"), offering("b", "s", "c", "y")),
    ];
    assert!(matches!(restore(0, &twice), Err(ContractError::DuplicateKey)));
}

#[test]
fn issued_ids_are_recognised() {
    assert!(spells_number_upto("7", 10));
    assert!(spells_number_upto("10", 10));
    assert!(!spells_number_upto("11", 10));
    assert!(!spells_number_upto("0", 10));
    assert!(!spells_number_upto("07", 10));
    assert!(!spells_number_upto("", 10));
    assert!(!spells_number_upto("1a", 10));
    assert!(spells_number_upto("18446744073709551615", u64::MAX));
    assert!(!spells_number_upto("18446744073709551616", u64::MAX));
}

#[test]
fn numbers_in_decimal() {
    assert_eq!(decimal_string(0), "0");
    assert_eq!(decimal_string(9), "9");
    assert_eq!(decimal_string(10), "10");
    assert_eq!(decimal_string(1234567), "1234567");
    assert_eq!(decimal_string(u128::MAX), "340282366920938463463374607431768211455");
}
