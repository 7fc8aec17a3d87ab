use market_depth::activity::{
    change_quantity, generate_id, perturb_price, REFERENCE_PRICE, SEED_LEVELS,
};
use market_depth::{ActivityDraws, ActivityType, Order, OrderActivity, OrderBook, Side};

fn resting(id: &str, price: u64, quantity: u64, side: Side, since: i64) -> Order {
    Order::new_at(id.to_string(), price, quantity, side, since)
}

fn draws(roll: u64) -> ActivityDraws {
    ActivityDraws {
        roll,
        side: Side::Bid,
        price_offset: 0,
        quantity: 5_000,
        nonce: 42,
        pick: 0,
        quantity_change: 0,
    }
}

fn two_sided() -> OrderBook {
    let mut book = OrderBook::new("ETHUSD".to_string());
    book.add_order(resting("b", 9_990, 1_500, Side::Bid, 0));
    book.add_order(resting("a", 10_010, 2_500, Side::Ask, 0));
    book
}

#[test]
fn a_low_roll_plans_a_new_order_around_the_best_price_of_its_side() {
    let book = two_sided();
    let bid = book.plan_activity(&ActivityDraws { price_offset: -7, ..draws(0) }, 1_234);
    assert_eq!(
        bid,
        OrderActivity {
            activity_type: ActivityType::Add,
            order_id: "order_1234_42".to_string(),
            symbol: "ETHUSD".to_string(),
            price: Some(9_983),
            quantity: Some(5_000),
            side: Some(Side::Bid),
            timestamp: 1_234,
        }
    );
    let ask = book.plan_activity(
        &ActivityDraws { side: Side::Ask, price_offset: 10, ..draws(39) },
        1_234,
    );
    assert_eq!(ask.activity_type, ActivityType::Add);
    assert_eq!(ask.price, Some(10_020));
    assert_eq!(ask.side, Some(Side::Ask));
}

#[test]
fn a_new_order_on_an_empty_side_gathers_around_the_reference_price() {
    let mut book = OrderBook::new("S".to_string());
    book.add_order(resting("a", 12_345, 1, Side::Ask, 0));
    let planned = book.plan_activity(&ActivityDraws { price_offset: 3, ..draws(10) }, 0);
    assert_eq!(planned.price, Some(REFERENCE_PRICE + 3));
    assert_eq!(REFERENCE_PRICE, 10_000);
}

#[test]
fn an_empty_book_gets_a_new_order_whatever_the_roll() {
    let book = OrderBook::new("S".to_string());
    for roll in [0u64, 39, 40, 69, 70, 99] {
        let planned = book.plan_activity(&draws(roll), 5);
        assert_eq!(planned.activity_type, ActivityType::Add);
        assert_eq!(planned.price, Some(REFERENCE_PRICE));
        assert_eq!(planned.order_id, "order_5_42");
    }
}

#[test]
fn a_middle_roll_plans_a_quantity_update_of_the_picked_order() {
    let book = two_sided();
    let planned =
        book.plan_activity(&ActivityDraws { pick: 1, quantity_change: -2_000, ..draws(40) }, 77);
    assert_eq!(
        planned,
        OrderActivity {
            activity_type: ActivityType::Update,
            order_id: "a".to_string(),
            symbol: "ETHUSD".to_string(),
            price: None,
            quantity: Some(500),
            side: None,
            timestamp: 77,
        }
    );
    let grown =
        book.plan_activity(&ActivityDraws { pick: 0, quantity_change: 1_000, ..draws(69) }, 77);
    assert_eq!(grown.order_id, "b");
    assert_eq!(grown.quantity, Some(2_500));
}

#[test]
fn an_update_that_leaves_nothing_is_planned_as_a_cancel() {
    let book = two_sided();
    for change in [-1_500i64, -2_000] {
        let planned = book
            .plan_activity(&ActivityDraws { pick: 0, quantity_change: change, ..draws(55) }, 9);
        assert_eq!(planned.activity_type, ActivityType::Cancel);
        assert_eq!(planned.order_id, "b");
        assert_eq!(planned.quantity, None);
    }
}

#[test]
fn a_high_roll_plans_a_cancel_of_the_picked_order() {
    let book = two_sided();
    let planned = book.plan_activity(&ActivityDraws { pick: 1, ..draws(70) }, 9);
    assert_eq!(
        planned,
        OrderActivity {
            activity_type: ActivityType::Cancel,
            order_id: "a".to_string(),
            symbol: "ETHUSD".to_string(),
            price: None,
            quantity: None,
            side: None,
            timestamp: 9,
        }
    );
    assert_eq!(book.plan_activity(&draws(99), 9).order_id, "b");
}

#[test]
fn a_perturbed_price_stays_within_one_tick_and_the_largest_price() {
    assert_eq!(perturb_price(10_000, -10), 9_990);
    assert_eq!(perturb_price(10_000, 10), 10_010);
    assert_eq!(perturb_price(5, -10), 1);
    assert_eq!(perturb_price(11, -10), 1);
    assert_eq!(perturb_price(12, -10), 2);
    assert_eq!(perturb_price(0, 0), 1);
    assert_eq!(perturb_price(u64::MAX, 10), u64::MAX);
    assert_eq!(perturb_price(u64::MAX - 3, 2), u64::MAX - 1);
}

#[test]
fn a_changed_quantity_stays_within_zero_and_the_largest_quantity() {
    assert_eq!(change_quantity(3_000, -2_000), 1_000);
    assert_eq!(change_quantity(3_000, 1_000), 4_000);
    assert_eq!(change_quantity(1_999, -2_000), 0);
    assert_eq!(change_quantity(2_000, -2_000), 0);
    assert_eq!(change_quantity(u64::MAX, 1_000), u64::MAX);
    assert_eq!(change_quantity(u64::MAX, -1), u64::MAX - 1);
}

#[test]
fn generated_ids_name_the_time_and_the_nonce() {
    assert_eq!(generate_id(1_700_000_000_123, 0), "order_1700000000123_0");
    assert_eq!(generate_id(0, u32::MAX), "order_0_4294967295");
    assert_eq!(generate_id(-15, 7), "order_-15_7");
    assert_eq!(generate_id(i64::MIN, 1), "order_-9223372036854775808_1");
}

#[test]
fn executing_events_applies_them() {
    let mut book = OrderBook::new("S".to_string());
    let add = OrderActivity {
        activity_type: ActivityType::Add,
        order_id: "n".to_string(),
        symbol: "S".to_string(),
        price: Some(10_001),
        quantity: Some(1_200),
        side: Some(Side::Ask),
        timestamp: 50,
    };
    book.execute_activity(&add);
    assert_eq!(book.get_sequence(), 1);
    let rows = book.get_mbo_side_at(Side::Ask, 1, 60);
    assert_eq!(rows.len(), 1);
    assert_eq!(rows[0].order_id, "n");
    assert_eq!(rows[0].quantity, 1_200);
    assert_eq!(rows[0].timestamp, 50);
    assert_eq!(rows[0].age_ms, 10);

    let update = OrderActivity {
        activity_type: ActivityType::Update,
        price: None,
        quantity: Some(700),
        side: None,
        timestamp: 70,
        ..add.duplicate()
    };
    book.execute_activity(&update);
    assert_eq!(book.get_sequence(), 2);
    let rows = book.get_mbo_side_at(Side::Ask, 1, 75);
    assert_eq!(rows[0].quantity, 700);
    assert_eq!(rows[0].age_ms, 5);

    let cancel = OrderActivity {
        activity_type: ActivityType::Cancel,
        quantity: None,
        timestamp: 80,
        ..update.duplicate()
    };
    book.execute_activity(&cancel);
    assert_eq!(book.get_sequence(), 3);
    assert_eq!(book.order_count(), 0);
    // A second cancel finds nothing to remove.
    book.execute_activity(&cancel);
    assert_eq!(book.get_sequence(), 3);
}

#[test]
fn events_that_lack_what_they_need_change_nothing() {
    let mut book = two_sided();
    let before = book.get_sequence();
    let add_without_price = OrderActivity {
        activity_type: ActivityType::Add,
        order_id: "n".to_string(),
        symbol: "ETHUSD".to_string(),
        price: None,
        quantity: Some(1),
        side: Some(Side::Bid),
        timestamp: 0,
    };
    book.execute_activity(&add_without_price);
    let update_without_quantity = OrderActivity {
        activity_type: ActivityType::Update,
        order_id: "b".to_string(),
        symbol: "ETHUSD".to_string(),
        price: None,
        quantity: None,
        side: None,
        timestamp: 0,
    };
    book.execute_activity(&update_without_quantity);
    assert_eq!(book.get_sequence(), before);
    assert_eq!(book.order_count(), 2);
}

#[test]
fn a_tick_of_activity_applies_between_one_and_eight_events() {
    let mut book = OrderBook::new("S".to_string());
    book.initialize_with_sample_data();
    for _ in 0..200 {
        let before = book.get_sequence();
        let activities = book.simulate_activity();
        assert!(!activities.is_empty() && activities.len() <= 8);
        assert_eq!(book.get_sequence(), before + activities.len() as u64);
        for activity in &activities {
            assert_eq!(activity.symbol, "S");
            match activity.activity_type {
                ActivityType::Add => {
                    assert!(activity.order_id.starts_with("order_"));
                    assert!(activity.price.unwrap() >= 1);
                    let quantity = activity.quantity.unwrap();
                    assert!((1_000..=10_000).contains(&quantity));
                    assert!(activity.side.is_some());
                }
                ActivityType::Update => {
                    assert!(activity.quantity.unwrap() > 0);
                    assert_eq!(activity.price, None);
                    assert_eq!(activity.side, None);
                }
                ActivityType::Cancel => {
                    assert_eq!(activity.quantity, None);
                }
            }
        }
    }
}

#[test]
fn draws_are_within_their_ranges_and_vary() {
    let mut book = OrderBook::new("S".to_string());
    book.initialize_with_sample_data();
    let mut rolls = std::collections::BTreeSet::new();
    let mut quantities = std::collections::BTreeSet::new();
    let mut picks = std::collections::BTreeSet::new();
    let mut nonces = std::collections::BTreeSet::new();
    let mut sides = Vec::new();
    for _ in 0..500 {
        let drawn = book.draw_activity();
        assert!(drawn.roll < 100);
        assert!((-10..=10).contains(&drawn.price_offset));
        assert!((1_000..=10_000).contains(&drawn.quantity));
        assert!((-2_000..=1_000).contains(&drawn.quantity_change));
        assert!(drawn.pick < book.order_count());
        rolls.insert(drawn.roll);
        quantities.insert(drawn.quantity);
        picks.insert(drawn.pick);
        nonces.insert(drawn.nonce);
        if !sides.contains(&drawn.side) {
            sides.push(drawn.side);
        }
    }
    assert!(rolls.len() > 10);
    assert!(quantities.len() > 10);
    assert!(picks.len() > 10);
    assert!(nonces.len() > 10);
    assert_eq!(sides.len(), 2);
    assert_eq!(OrderBook::new("E".to_string()).draw_activity().pick, 0);
}

#[test]
fn a_seeded_book_has_thirty_levels_a_side_around_the_reference_price() {
    let before = chrono::Utc::now().timestamp_millis();
    let mut book = OrderBook::new("S".to_string());
    book.initialize_with_sample_data();
    let after = chrono::Utc::now().timestamp_millis();
    assert_eq!(SEED_LEVELS, 30);
    assert_eq!(book.get_sequence(), 60);
    assert_eq!(book.order_count(), 60);
    assert_eq!(book.get_best_bid_ask(), (Some(9_995), Some(10_000)));
    let (bids, asks) = book.get_mbo_data_at(100, after);
    assert_eq!(bids.len(), 30);
    assert_eq!(asks.len(), 30);
    for (step, row) in bids.iter().enumerate() {
        assert_eq!(row.order_id, format!("bid_{step}"));
        assert_eq!(row.price, 9_995 - step as u64);
        assert_eq!(row.side, Side::Bid);
        assert!((1_000..=10_000).contains(&row.quantity));
        assert!(row.timestamp > before - 60_000 && row.timestamp <= after);
    }
    for (step, row) in asks.iter().enumerate() {
        assert_eq!(row.order_id, format!("ask_{step}"));
        assert_eq!(row.price, 10_000 + step as u64);
        assert_eq!(row.side, Side::Ask);
        assert!((1_000..=10_000).contains(&row.quantity));
        assert!(row.age_ms < 60_000 + (after - before) as u64);
    }
    let (bids, asks) = book.get_mbp_data_at(30, after);
    assert!(bids.iter().chain(asks.iter()).all(|row| row.order_count == 1));
    let sample = OrderBook::sample("T".to_string());
    assert_eq!(sample.symbol, "T");
    assert_eq!(sample.get_sequence(), 60);
}

#[test]
fn a_generated_event_is_not_applied_by_generating_it() {
    let book = two_sided();
    let generated = book.generate_random_activity();
    assert_eq!(generated.symbol, "ETHUSD");
    assert!(generated.timestamp >= 0);
    assert_eq!(book.get_sequence(), 2);
    assert_eq!(book.order_count(), 2);
}
