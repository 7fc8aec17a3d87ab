use market_depth::{Order, OrderBook, Side};

fn resting(id: &str, price: u64, quantity: u64, side: Side, since: i64) -> Order {
    Order::new_at(id.to_string(), price, quantity, side, since)
}

fn bid_ids(book: &OrderBook, levels: u32) -> Vec<String> {
    book.get_mbo_side_at(Side::Bid, levels, 0).into_iter().map(|row| row.order_id).collect()
}

#[test]
fn a_fresh_book_is_empty_at_sequence_zero() {
    let book = OrderBook::new("BTCUSD".to_string());
    assert_eq!(book.symbol, "BTCUSD");
    assert_eq!(book.get_sequence(), 0);
    assert_eq!(book.order_count(), 0);
    assert_eq!(book.get_best_bid_ask(), (None, None));
    assert!(book.get_mbo_side_at(Side::Bid, 10, 0).is_empty());
    assert!(book.get_mbp_side_at(Side::Ask, 10, 0).is_empty());
}

#[test]
fn the_sequence_counts_the_mutations_applied() {
    let mut book = OrderBook::new("S".to_string());
    assert!(book.add_order(resting("a", 100, 10, Side::Bid, 0)));
    assert_eq!(book.get_sequence(), 1);
    assert!(book.add_order(resting("b", 101, 10, Side::Ask, 0)));
    assert_eq!(book.get_sequence(), 2);
    assert!(book.update_order_at("a", 7, 5));
    assert_eq!(book.get_sequence(), 3);
    assert!(book.remove_order("b"));
    assert_eq!(book.get_sequence(), 4);
    // What is not applied does not count.
    assert!(!book.remove_order("b"));
    assert!(!book.update_order_at("zz", 3, 5));
    assert!(!book.update_order_at("zz", 0, 5));
    assert_eq!(book.get_sequence(), 4);
}

#[test]
fn an_arrival_with_a_known_id_replaces() {
    let mut book = OrderBook::new("S".to_string());
    book.add_order(resting("x", 100, 10, Side::Bid, 1));
    book.add_order(resting("y", 100, 20, Side::Bid, 2));
    book.add_order(resting("x", 105, 30, Side::Ask, 3));
    assert_eq!(book.order_count(), 2);
    assert_eq!(book.get_sequence(), 3);
    assert_eq!(bid_ids(&book, 10), vec!["y".to_string()]);
    let asks = book.get_mbo_side_at(Side::Ask, 10, 3);
    assert_eq!(asks.len(), 1);
    assert_eq!(asks[0].order_id, "x");
    assert_eq!(asks[0].price, 105);
    assert_eq!(asks[0].quantity, 30);
    assert_eq!(asks[0].timestamp, 3);
}

#[test]
fn a_replaced_order_goes_to_the_end_of_its_level() {
    let mut book = OrderBook::new("S".to_string());
    book.add_order(resting("x", 100, 10, Side::Bid, 1));
    book.add_order(resting("y", 100, 20, Side::Bid, 2));
    book.add_order(resting("x", 100, 30, Side::Bid, 3));
    assert_eq!(bid_ids(&book, 10), vec!["y".to_string(), "x".to_string()]);
}

#[test]
fn an_update_to_zero_is_a_removal() {
    let mut updated = OrderBook::new("S".to_string());
    let mut removed = OrderBook::new("S".to_string());
    for book in [&mut updated, &mut removed] {
        book.add_order(resting("a", 100, 10, Side::Bid, 1));
        book.add_order(resting("b", 100, 20, Side::Bid, 2));
        book.add_order(resting("c", 99, 30, Side::Bid, 3));
        book.add_order(resting("d", 101, 40, Side::Ask, 4));
    }
    assert!(updated.update_order_at("c", 0, 9));
    assert!(removed.remove_order("c"));
    assert_eq!(updated.get_sequence(), removed.get_sequence());
    assert_eq!(updated.order_count(), removed.order_count());
    assert_eq!(updated.get_mbo_data_at(10, 9), removed.get_mbo_data_at(10, 9));
    assert_eq!(updated.get_mbp_data_at(10, 9), removed.get_mbp_data_at(10, 9));
    assert!(!updated.contains("c"));
    // The level at 99 went with its last order.
    assert_eq!(updated.get_mbp_side_at(Side::Bid, 10, 9).len(), 1);
}

#[test]
fn an_update_keeps_the_place_and_restarts_the_age() {
    let mut book = OrderBook::new("S".to_string());
    book.add_order(resting("a", 100, 10, Side::Bid, 1_000));
    book.add_order(resting("b", 100, 20, Side::Bid, 2_000));
    assert!(book.update_order_at("a", 15, 5_000));
    let rows = book.get_mbo_side_at(Side::Bid, 10, 6_000);
    assert_eq!(rows.len(), 2);
    assert_eq!(rows[0].order_id, "a");
    assert_eq!(rows[0].quantity, 15);
    assert_eq!(rows[0].timestamp, 5_000);
    assert_eq!(rows[0].age_ms, 1_000);
    assert_eq!(rows[1].order_id, "b");
    assert_eq!(rows[1].age_ms, 4_000);
}

#[test]
fn removing_the_last_order_of_a_level_removes_the_level() {
    let mut book = OrderBook::new("S".to_string());
    book.add_order(resting("top", 200, 1, Side::Bid, 0));
    book.add_order(resting("low", 100, 1, Side::Bid, 0));
    assert_eq!(book.get_best_bid_ask().0, Some(200));
    assert!(book.remove_order("top"));
    assert_eq!(book.get_best_bid_ask().0, Some(100));
    assert!(book.remove_order("low"));
    assert_eq!(book.get_best_bid_ask().0, None);
}

#[test]
fn lookups_go_by_the_whole_id() {
    let mut book = OrderBook::new("S".to_string());
    book.add_order(resting("order_1", 100, 1, Side::Bid, 0));
    assert!(book.contains("order_1"));
    assert!(!book.contains("order_"));
    assert!(!book.contains("order_10"));
    assert!(!book.remove_order("order_10"));
    assert!(book.remove_order("order_1"));
}

#[test]
fn an_order_made_now_rests_since_now() {
    let before = chrono::Utc::now().timestamp_millis();
    let order = Order::new("n".to_string(), 100, 5, Side::Ask);
    let after = chrono::Utc::now().timestamp_millis();
    assert!(order.timestamp >= 0);
    assert!(before <= order.timestamp && order.timestamp <= after);
    assert_eq!(order.original_quantity, 5);
    assert!(order.age_ms() < 60_000);
}

#[test]
fn an_age_is_never_negative() {
    let order = resting("a", 100, 1, Side::Bid, 1_000);
    assert_eq!(order.age_ms_at(1_500), 500);
    assert_eq!(order.age_ms_at(1_000), 0);
    assert_eq!(order.age_ms_at(999), 0);
    let ancient = resting("b", 100, 1, Side::Bid, i64::MIN);
    assert_eq!(ancient.age_ms_at(i64::MAX), u64::MAX);
    assert_eq!(ancient.age_ms_at(-1), (1u64 << 63) - 1);
}

#[test]
fn a_quantity_update_keeps_the_original_quantity() {
    let mut order = resting("a", 100, 10, Side::Bid, 1);
    order.update_quantity_at(4, 9);
    assert_eq!(order.quantity, 4);
    assert_eq!(order.original_quantity, 10);
    assert_eq!(order.timestamp, 9);
    order.update_quantity(6);
    assert_eq!(order.quantity, 6);
    assert!(order.timestamp > 9);
    assert_eq!(order.duplicate(), order);
}

#[test]
fn an_update_made_now_restarts_the_age_now() {
    let mut book = OrderBook::new("S".to_string());
    book.add_order(resting("a", 100, 10, Side::Bid, 1_000));
    let before = chrono::Utc::now().timestamp_millis();
    assert!(book.update_order("a", 25));
    let after = chrono::Utc::now().timestamp_millis();
    let rows = book.get_mbo_side_at(Side::Bid, 1, after);
    assert_eq!(rows[0].quantity, 25);
    assert!(before <= rows[0].timestamp && rows[0].timestamp <= after);
    assert_eq!(book.get_sequence(), 2);
    assert!(!book.update_order("b", 25));
    assert!(book.update_order("a", 0));
    assert_eq!(book.order_count(), 0);
    assert_eq!(book.get_sequence(), 3);
}
