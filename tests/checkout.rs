use std::cmp::Ordering;

use word_chains::checkout::{
    Deal, ItemData, ItemPrice, QueryError, StockType, Store, UnsignedMoneyValue,
};

fn store() -> Store {
    Store::from_prices(vec![
        ("Can of Beans".to_string(), 10),
        ("Banana".to_string(), 12),
        ("Tomato".to_string(), 9),
        ("Milk".to_string(), 6),
    ])
}

#[test]
fn scanning_session_from_the_store_program() {
    let mut store = store();
    store.begin_checkout();
    store.scan("Can of Beans").unwrap();
    store.scan("Can of Beans").unwrap();
    store.scan("Can of Beans").unwrap();
    store.scan("Banana").unwrap();
    store.scan("Banana").unwrap();
    store.scan("Can of Beans").unwrap();
    store.scan_multiple("Milk", 5).unwrap();
    store.unscan_multiple("Milk", 1).unwrap();
    store.scan_multiple("Milk", 2).unwrap();
    store.unscan_multiple("Can of Beans", 4).unwrap();
    assert!(matches!(store.unscan("Can of Beans"), Err(QueryError::MissingItem(name)) if name == "Can of Beans"));
    store.scan_multiple("Can of Beans", 10).expect("took them all");
    store.scan_multiple("Can of Beans", 320).unwrap();
    assert_eq!(store.get_checkout_price().unwrap(), UnsignedMoneyValue(2 * 12 + 6 * 6 + 330 * 10));
    let checked_out = store.complete_checkout().unwrap();
    assert_eq!(checked_out.amount_of("Can of Beans"), 330);
    assert_eq!(checked_out.amount_of("Milk"), 6);
    assert_eq!(checked_out.amount_of("Banana"), 2);
    assert_eq!(checked_out.amount_of("Tomato"), 0);
    assert!(store.complete_checkout().is_none());
}

#[test]
fn queries_without_a_checkout() {
    let mut store = store();
    assert!(matches!(store.scan("Milk"), Err(QueryError::NoContainer)));
    assert!(matches!(store.unscan("Milk"), Err(QueryError::NoContainer)));
    assert!(matches!(store.unscan_all("Milk"), Err(QueryError::NoContainer)));
    assert!(matches!(store.get_checkout_price(), Err(QueryError::NoContainer)));
}

#[test]
fn unknown_items_and_missing_stock() {
    let mut store = store();
    store.begin_checkout();
    assert!(matches!(store.scan("Caviar"), Err(QueryError::MissingItem(name)) if name == "Caviar"));
    let gold = ItemData {
        stock: StockType::Limited(3),
        price: ItemPrice {
            unit: UnsignedMoneyValue(100),
            special: Some(Deal { item_amount: 2, price_for_amount: UnsignedMoneyValue(150) }),
        },
    };
    assert_eq!(store.add_item("Gold".to_string(), gold), None);
    assert_eq!(store.add_item("Gold".to_string(), ItemData::basic(1)), Some("Gold".to_string()));
    store.scan_multiple("Gold", 2).unwrap();
    assert!(matches!(store.scan_multiple("Gold", 2), Err(QueryError::MissingStock(name, 1)) if name == "Gold"));
    store.scan("Gold").unwrap();
    assert!(matches!(store.scan("Gold"), Err(QueryError::MissingStock(_, 1))));
    assert!(matches!(store.unscan_multiple("Gold", 5), Err(QueryError::MissingStock(_, 2))));
    assert_eq!(store.unscan_all("Gold").unwrap(), 3);
    assert!(matches!(store.unscan_all("Gold"), Err(QueryError::MissingItem(_))));
}

#[test]
fn price_needs_every_item_in_stock() {
    let mut store = store();
    store.begin_checkout();
    store.scan_multiple("Tomato", 3).unwrap();
    assert_eq!(store.get_checkout_price().unwrap(), UnsignedMoneyValue(27));
    let (name, data) = store.remove_item("Tomato").unwrap();
    assert_eq!((name.as_str(), data), ("Tomato", ItemData::basic(9)));
    assert!(store.remove_item("Tomato").is_none());
    assert!(matches!(store.get_checkout_price(), Err(QueryError::MissingItem(name)) if name == "Tomato"));
}

#[test]
fn later_prices_replace_earlier_ones() {
    let mut store = Store::from_prices(vec![("Tea".to_string(), 3), ("Tea".to_string(), 4)]);
    store.begin_checkout();
    store.scan_multiple("Tea", 2).unwrap();
    assert_eq!(store.get_checkout_price().unwrap(), UnsignedMoneyValue(8));
    let mut empty = Store::new();
    empty.begin_checkout();
    assert_eq!(empty.get_checkout_price().unwrap(), UnsignedMoneyValue(0));
}

#[test]
fn basic_items() {
    let data = ItemData::basic(7);
    assert_eq!(data.stock, StockType::Unlimited);
    assert_eq!(data.price, ItemPrice { unit: UnsignedMoneyValue(7), special: None });
}

#[test]
fn stock_sizes_are_ordered() {
    assert_eq!(StockType::Unlimited.partial_cmp(&StockType::Limited(5)), Some(Ordering::Greater));
    assert_eq!(StockType::Limited(5).partial_cmp(&StockType::Unlimited), Some(Ordering::Less));
    assert_eq!(StockType::Limited(2).partial_cmp(&StockType::Limited(5)), Some(Ordering::Less));
    assert_eq!(StockType::Limited(5).partial_cmp(&StockType::Limited(5)), Some(Ordering::Equal));
    assert!(StockType::Unlimited > StockType::Limited(usize::MAX));
    assert_eq!(StockType::Unlimited.partial_cmp(&StockType::Unlimited), Some(Ordering::Equal));
}
