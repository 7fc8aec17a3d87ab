use market_depth::{MBPLevel, Order, OrderBook, Ratio, Side};

fn resting(id: &str, price: u64, quantity: u64, side: Side, since: i64) -> Order {
    Order::new_at(id.to_string(), price, quantity, side, since)
}

fn as_number(ratio: Ratio) -> f64 {
    ratio.numerator as f64 / ratio.denominator as f64
}

#[test]
fn best_prices_and_spread_of_one_bid_and_one_ask() {
    let mut book = OrderBook::new("XYZ".to_string());
    book.add_order(resting("b1", 10_000, 500, Side::Bid, 0));
    book.add_order(resting("a1", 10_005, 300, Side::Ask, 0));
    assert_eq!(book.get_best_bid_ask(), (Some(10_000), Some(10_005)));
    let (spread, mid, bps) = book.get_spread_info();
    assert_eq!(spread, Some(5));
    assert_eq!(mid, Some(Ratio { numerator: 20_005, denominator: 2 }));
    assert_eq!(bps, Some(Ratio { numerator: 100_000, denominator: 20_005 }));
    // In currency units: a spread of 0.05 around 100.025, just under five
    // basis points.
    assert!((spread.unwrap() as f64 / 100.0 - 0.05).abs() < 1e-12);
    assert!((as_number(mid.unwrap()) / 100.0 - 100.025).abs() < 1e-12);
    assert!((as_number(bps.unwrap()) - 4.998_750_312).abs() < 1e-9);
    assert!((as_number(bps.unwrap()) - 4.999).abs() < 1e-3);
}

#[test]
fn a_crossed_book_has_a_negative_spread() {
    let mut book = OrderBook::new("XYZ".to_string());
    book.add_order(resting("b", 10_010, 1, Side::Bid, 0));
    book.add_order(resting("a", 10_000, 1, Side::Ask, 0));
    let (spread, mid, bps) = book.get_spread_info();
    assert_eq!(spread, Some(-10));
    assert_eq!(mid, Some(Ratio { numerator: 20_010, denominator: 2 }));
    assert_eq!(bps, Some(Ratio { numerator: -200_000, denominator: 20_010 }));
}

#[test]
fn the_spread_is_absent_while_a_side_is_empty() {
    let mut book = OrderBook::new("XYZ".to_string());
    assert_eq!(book.get_spread_info(), (None, None, None));
    book.add_order(resting("b", 10_000, 1, Side::Bid, 0));
    assert_eq!(book.get_best_bid_ask(), (Some(10_000), None));
    assert_eq!(book.get_spread_info(), (None, None, None));
}

#[test]
fn the_spread_of_the_widest_prices_is_exact() {
    let mut book = OrderBook::new("XYZ".to_string());
    book.add_order(resting("b", u64::MAX, 1, Side::Bid, 0));
    book.add_order(resting("a", 0, 1, Side::Ask, 0));
    let (spread, mid, bps) = book.get_spread_info();
    assert_eq!(spread, Some(-(u64::MAX as i128)));
    assert_eq!(mid, Some(Ratio { numerator: u64::MAX as i128, denominator: 2 }));
    assert_eq!(
        bps,
        Some(Ratio { numerator: -20_000 * (u64::MAX as i128), denominator: u64::MAX as u128 })
    );
}

#[test]
fn market_by_price_of_two_bid_levels() {
    let mut book = OrderBook::new("XYZ".to_string());
    book.add_order(resting("p", 9_998, 100, Side::Bid, 0));
    book.add_order(resting("q", 9_999, 50, Side::Bid, 0));
    book.add_order(resting("r", 9_998, 200, Side::Bid, 0));
    let rows = book.get_mbp_side_at(Side::Bid, 2, 0);
    assert_eq!(
        rows,
        vec![
            MBPLevel {
                price: 9_999,
                quantity: 50,
                order_count: 1,
                side: Side::Bid,
                total_quantity: 50,
                avg_age_ms: 0,
            },
            MBPLevel {
                price: 9_998,
                quantity: 300,
                order_count: 2,
                side: Side::Bid,
                total_quantity: 350,
                avg_age_ms: 0,
            },
        ]
    );
}

#[test]
fn market_by_price_is_cut_at_the_levels_asked_for() {
    let mut book = OrderBook::new("XYZ".to_string());
    for step in 0..10u64 {
        book.add_order(resting(&format!("a{step}"), 100 + step, 10 + step, Side::Ask, 0));
        book.add_order(resting(&format!("b{step}"), 99 - step, 20 + step, Side::Bid, 0));
    }
    for levels in [0u32, 1, 3, 10, 25] {
        let (bids, asks) = book.get_mbp_data_at(levels, 0);
        let shown = levels.min(10) as usize;
        assert_eq!(bids.len(), shown);
        assert_eq!(asks.len(), shown);
        for pair in bids.windows(2) {
            assert!(pair[0].price > pair[1].price);
            assert!(pair[0].total_quantity <= pair[1].total_quantity);
        }
        for pair in asks.windows(2) {
            assert!(pair[0].price < pair[1].price);
            assert!(pair[0].total_quantity <= pair[1].total_quantity);
        }
        let mut running = 0u128;
        for row in &asks {
            running += row.quantity;
            assert_eq!(row.total_quantity, running);
            assert_eq!(row.side, Side::Ask);
        }
        if shown > 0 {
            assert_eq!(bids[0].price, 99);
            assert_eq!(asks[0].price, 100);
        }
    }
}

#[test]
fn the_mean_age_of_a_level_is_rounded_down() {
    let mut book = OrderBook::new("XYZ".to_string());
    book.add_order(resting("a", 100, 1, Side::Ask, 1_000));
    book.add_order(resting("b", 100, 1, Side::Ask, 1_001));
    book.add_order(resting("c", 100, 1, Side::Ask, 5_000));
    let rows = book.get_mbp_side_at(Side::Ask, 1, 2_000);
    // The ages are 1000, 999 and 0: their mean is 666 and a third.
    assert_eq!(rows.len(), 1);
    assert_eq!(rows[0].avg_age_ms, 666);
    assert_eq!(rows[0].order_count, 3);
}

#[test]
fn quantities_beyond_sixty_four_bits_add_up() {
    let mut book = OrderBook::new("XYZ".to_string());
    book.add_order(resting("a", 100, u64::MAX, Side::Bid, 0));
    book.add_order(resting("b", 100, u64::MAX, Side::Bid, 0));
    book.add_order(resting("c", 99, u64::MAX, Side::Bid, 0));
    let rows = book.get_mbp_side_at(Side::Bid, 5, 0);
    assert_eq!(rows[0].quantity, 2 * (u64::MAX as u128));
    assert_eq!(rows[1].total_quantity, 3 * (u64::MAX as u128));
}

#[test]
fn market_by_order_lists_levels_best_first_and_orders_first_come_first() {
    let mut book = OrderBook::new("XYZ".to_string());
    book.add_order(resting("a", 100, 1, Side::Bid, 10));
    book.add_order(resting("b", 101, 2, Side::Bid, 20));
    book.add_order(resting("c", 100, 3, Side::Bid, 30));
    book.add_order(resting("d", 102, 4, Side::Ask, 40));
    book.add_order(resting("e", 101, 5, Side::Bid, 50));
    let (bids, asks) = book.get_mbo_data_at(5, 100);
    let ids: Vec<&str> = bids.iter().map(|row| row.order_id.as_str()).collect();
    assert_eq!(ids, vec!["b", "e", "a", "c"]);
    assert_eq!(bids[0].price, 101);
    assert_eq!(bids[0].quantity, 2);
    assert_eq!(bids[0].side, Side::Bid);
    assert_eq!(bids[0].timestamp, 20);
    assert_eq!(bids[0].age_ms, 80);
    assert_eq!(asks.len(), 1);
    assert_eq!(asks[0].order_id, "d");
    // One level only: the two orders at the best price.
    let top = book.get_mbo_side_at(Side::Bid, 1, 100);
    assert_eq!(top.len(), 2);
    assert!(top.iter().all(|row| row.price == 101));
}

#[test]
fn market_by_order_is_cut_after_three_rows_a_level() {
    let mut book = OrderBook::new("XYZ".to_string());
    for n in 0..5u64 {
        book.add_order(resting(&format!("x{n}"), 100, 1, Side::Ask, 0));
    }
    for n in 0..5u64 {
        book.add_order(resting(&format!("y{n}"), 101, 1, Side::Ask, 0));
    }
    book.add_order(resting("z", 102, 1, Side::Ask, 0));
    let one = book.get_mbo_side_at(Side::Ask, 1, 0);
    assert_eq!(one.len(), 3);
    assert!(one.iter().all(|row| row.price == 100));
    let two = book.get_mbo_side_at(Side::Ask, 2, 0);
    assert_eq!(two.len(), 6);
    let ids: Vec<&str> = two.iter().map(|row| row.order_id.as_str()).collect();
    assert_eq!(ids, vec!["x0", "x1", "x2", "x3", "x4", "y0"]);
    let mut prices: Vec<u64> = two.iter().map(|row| row.price).collect();
    prices.dedup();
    assert!(prices.len() <= 2);
    assert!(book.get_mbo_side_at(Side::Ask, 0, 0).is_empty());
    assert_eq!(book.get_mbo_side_at(Side::Ask, u32::MAX, 0).len(), 11);
}

#[test]
fn views_taken_now_agree_with_views_taken_at_a_time() {
    let mut book = OrderBook::new("XYZ".to_string());
    book.add_order(resting("a", 100, 7, Side::Bid, 0));
    book.add_order(resting("b", 101, 9, Side::Ask, 0));
    let (bids, asks) = book.get_mbp_data(3);
    assert_eq!(bids.len(), 1);
    assert_eq!(asks.len(), 1);
    assert_eq!(bids[0].quantity, 7);
    assert!(bids[0].avg_age_ms > 1_000_000_000);
    let (bids, asks) = book.get_mbo_data(3);
    assert_eq!(bids[0].order_id, "a");
    assert_eq!(asks[0].order_id, "b");
    assert_eq!(bids[0].age_ms, asks[0].age_ms);
}

#[test]
fn views_of_a_driven_book_keep_their_shape() {
    let mut book = OrderBook::sample("XYZ".to_string());
    for tick in 0..150 {
        book.simulate_activity();
        let levels = (tick % 7) as u32;
        let now = chrono::Utc::now().timestamp_millis();
        for side in [Side::Bid, Side::Ask] {
            let by_price = book.get_mbp_side_at(side, levels, now);
            assert!(by_price.len() <= levels as usize);
            let mut running = 0u128;
            for (j, row) in by_price.iter().enumerate() {
                running += row.quantity;
                assert_eq!(row.total_quantity, running);
                assert_eq!(row.side, side);
                assert!(row.order_count >= 1);
                if j > 0 {
                    let before = by_price[j - 1].price;
                    assert!(match side {
                        Side::Bid => before > row.price,
                        Side::Ask => before < row.price,
                    });
                }
            }
            let by_order = book.get_mbo_side_at(side, levels, now);
            assert!(by_order.len() <= 3 * levels as usize);
            let mut prices: Vec<u64> = by_order.iter().map(|row| row.price).collect();
            prices.dedup();
            assert!(prices.len() <= levels as usize);
            let orders: u64 = by_price.iter().map(|row| row.order_count).sum();
            assert_eq!(by_order.len() as u64, orders.min(3 * levels as u64));
            assert!(by_order.iter().all(|row| row.side == side));
        }
        let (best_bid, best_ask) = book.get_best_bid_ask();
        let (bids, asks) = book.get_mbp_data_at(1, now);
        assert_eq!(best_bid, bids.first().map(|row| row.price));
        assert_eq!(best_ask, asks.first().map(|row| row.price));
        let (spread, mid, _) = book.get_spread_info();
        if let (Some(bid), Some(ask)) = (best_bid, best_ask) {
            assert_eq!(spread, Some(ask as i128 - bid as i128));
            assert_eq!(mid, Some(Ratio { numerator: bid as i128 + ask as i128, denominator: 2 }));
        } else {
            assert_eq!(spread, None);
        }
    }
}
