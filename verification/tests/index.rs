use oxide_arbiter::{Amount, OrderSide, PriceLevelIndex, Resting};

fn at(price: i64, id: u128) -> Resting {
    Resting { price: Amount { units: price }, id }
}

#[test]
fn empty_index_has_no_best_price() {
    let index = PriceLevelIndex::new();
    assert_eq!(index.best(1, OrderSide::Buy), None);
    assert_eq!(index.best(1, OrderSide::Sell), None);
    assert!(index.walk(1, OrderSide::Buy).is_empty());
    assert!(index.walk(1, OrderSide::Sell).is_empty());
}

#[test]
fn asks_are_walked_from_the_lowest_price() {
    let mut index = PriceLevelIndex::new();
    index.insert(1, OrderSide::Sell, Amount { units: 12 }, 100);
    index.insert(1, OrderSide::Sell, Amount { units: 10 }, 101);
    index.insert(1, OrderSide::Sell, Amount { units: 11 }, 102);
    index.insert(1, OrderSide::Sell, Amount { units: 10 }, 103);
    index.insert(1, OrderSide::Sell, Amount { units: 12 }, 104);
    assert_eq!(
        index.walk(1, OrderSide::Sell),
        vec![at(10, 101), at(10, 103), at(11, 102), at(12, 100), at(12, 104)]
    );
    assert_eq!(index.best(1, OrderSide::Sell), Some(Amount { units: 10 }));
    assert_eq!(index.best(1, OrderSide::Buy), None);
}

#[test]
fn bids_are_walked_from_the_highest_price() {
    let mut index = PriceLevelIndex::new();
    index.insert(1, OrderSide::Buy, Amount { units: 10 }, 100);
    index.insert(1, OrderSide::Buy, Amount { units: 12 }, 101);
    index.insert(1, OrderSide::Buy, Amount { units: 11 }, 102);
    index.insert(1, OrderSide::Buy, Amount { units: 12 }, 103);
    index.insert(1, OrderSide::Buy, Amount { units: 10 }, 104);
    assert_eq!(
        index.walk(1, OrderSide::Buy),
        vec![at(12, 101), at(12, 103), at(11, 102), at(10, 100), at(10, 104)]
    );
    assert_eq!(index.best(1, OrderSide::Buy), Some(Amount { units: 12 }));
    assert_eq!(index.best(1, OrderSide::Sell), None);
}

#[test]
fn items_and_sides_are_kept_apart() {
    let mut index = PriceLevelIndex::new();
    index.insert(1, OrderSide::Buy, Amount { units: 10 }, 100);
    index.insert(2, OrderSide::Buy, Amount { units: 20 }, 200);
    index.insert(1, OrderSide::Sell, Amount { units: 30 }, 300);
    assert_eq!(index.walk(1, OrderSide::Buy), vec![at(10, 100)]);
    assert_eq!(index.walk(2, OrderSide::Buy), vec![at(20, 200)]);
    assert_eq!(index.walk(1, OrderSide::Sell), vec![at(30, 300)]);
    assert!(index.walk(2, OrderSide::Sell).is_empty());
}

#[test]
fn remove_takes_the_order_out_of_its_level() {
    let mut index = PriceLevelIndex::new();
    index.insert(1, OrderSide::Sell, Amount { units: 10 }, 100);
    index.insert(1, OrderSide::Sell, Amount { units: 10 }, 101);
    index.insert(1, OrderSide::Sell, Amount { units: 11 }, 102);
    index.remove(1, OrderSide::Sell, Amount { units: 10 }, 100);
    assert_eq!(index.walk(1, OrderSide::Sell), vec![at(10, 101), at(11, 102)]);
    index.remove(1, OrderSide::Sell, Amount { units: 10 }, 101);
    assert_eq!(index.walk(1, OrderSide::Sell), vec![at(11, 102)]);
    assert_eq!(index.best(1, OrderSide::Sell), Some(Amount { units: 11 }));
    index.remove(1, OrderSide::Sell, Amount { units: 11 }, 102);
    assert!(index.walk(1, OrderSide::Sell).is_empty());
    assert_eq!(index.best(1, OrderSide::Sell), None);
}

#[test]
fn remove_looks_only_at_the_level_of_the_price() {
    let mut index = PriceLevelIndex::new();
    index.insert(1, OrderSide::Buy, Amount { units: 10 }, 100);
    index.remove(1, OrderSide::Buy, Amount { units: 11 }, 100);
    index.remove(1, OrderSide::Sell, Amount { units: 10 }, 100);
    index.remove(2, OrderSide::Buy, Amount { units: 10 }, 100);
    index.remove(1, OrderSide::Buy, Amount { units: 10 }, 101);
    assert_eq!(index.walk(1, OrderSide::Buy), vec![at(10, 100)]);
}

#[test]
fn replace_sets_the_entries_of_one_item_and_side() {
    let mut index = PriceLevelIndex::new();
    index.insert(1, OrderSide::Sell, Amount { units: 10 }, 100);
    index.insert(1, OrderSide::Buy, Amount { units: 9 }, 101);
    index.replace(1, OrderSide::Sell, vec![at(11, 102), at(12, 103)]);
    assert_eq!(index.walk(1, OrderSide::Sell), vec![at(11, 102), at(12, 103)]);
    assert_eq!(index.walk(1, OrderSide::Buy), vec![at(9, 101)]);
    index.replace(1, OrderSide::Sell, Vec::new());
    assert!(index.walk(1, OrderSide::Sell).is_empty());
    assert_eq!(index.best(1, OrderSide::Sell), None);
}
