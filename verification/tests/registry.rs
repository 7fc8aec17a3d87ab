use market_depth::stream_manager::{
    derive_stream_id, reply_to_invalid, reply_to_subscribe, reply_to_unsubscribe,
};
use market_depth::{
    ClientId, ClientMessage, DataType, Delivery, MarketDataUpdate, ServerMessage, StreamManager,
    SubscribeError, Subscription,
};
use tokio::sync::mpsc::{unbounded_channel, UnboundedReceiver};

fn connect(manager: &mut StreamManager, client: ClientId) -> UnboundedReceiver<ServerMessage> {
    let (sender, receiver) = unbounded_channel();
    manager.register_client(client, sender);
    receiver
}

fn drain(receiver: &mut UnboundedReceiver<ServerMessage>) -> Vec<ServerMessage> {
    let mut received = Vec::new();
    while let Ok(message) = receiver.try_recv() {
        received.push(message);
    }
    received
}

#[test]
fn a_fresh_registry_knows_nothing() {
    let manager = StreamManager::new();
    assert!(manager.get_symbols().is_empty());
    assert!(!manager.is_registered(1));
    assert!(manager.get_client_sender(&1).is_none());
    assert!(manager.get_order_book_snapshot("BTCUSD", DataType::MBP, 5).is_none());
    assert!(manager.heartbeats(0).is_empty());
    assert_eq!(manager.send_heartbeats(), 0);
}

#[test]
fn starting_sees_the_three_symbols_every_server_has() {
    let mut manager = StreamManager::new();
    manager.start();
    assert_eq!(manager.get_symbols(), vec!["BTCUSD", "ETHUSD", "ADAUSD"]);
    manager.start();
    assert_eq!(manager.get_symbols(), vec!["BTCUSD", "ETHUSD", "ADAUSD"]);
    assert!(matches!(
        manager.get_order_book_snapshot("ADAUSD", DataType::MBO, 2),
        Some(MarketDataUpdate::MBO { .. })
    ));
    assert!(manager.get_order_book_snapshot("XRPUSD", DataType::MBO, 2).is_none());
    let snapshot = manager.get_order_book_snapshot_at("ETHUSD", DataType::MBP, 4, 0).unwrap();
    match snapshot {
        MarketDataUpdate::MBP { bids, asks } => {
            assert_eq!(bids.len(), 4);
            assert_eq!(asks.len(), 4);
            assert_eq!(bids[0].price, 9_995);
            assert_eq!(asks[0].price, 10_000);
        }
        other => panic!("unexpected view: {other:?}"),
    }
}

#[test]
fn a_symbol_is_given_its_book_once() {
    let mut manager = StreamManager::new();
    assert_eq!(manager.initialize_symbol("AAA"), 0);
    assert_eq!(manager.initialize_symbol("BBB"), 1);
    assert_eq!(manager.initialize_symbol("AAA"), 0);
    assert_eq!(manager.initialize_symbol("AA"), 2);
    assert_eq!(manager.get_symbols(), vec!["AAA", "BBB", "AA"]);
}

#[test]
fn a_subscriber_is_sent_one_snapshot_at_once() {
    let mut manager = StreamManager::new();
    let mut receiver = connect(&mut manager, 7);
    let outcome =
        manager.subscribe(7, "s1".to_string(), "XYZ".to_string(), DataType::MBP, Some(5));
    assert_eq!(outcome, Ok(()));
    assert!(manager.get_symbols().contains(&"XYZ".to_string()));
    let received = drain(&mut receiver);
    assert_eq!(received.len(), 1);
    match &received[0] {
        ServerMessage::MarketData { stream_id, symbol, data, sequence, timestamp } => {
            assert_eq!(stream_id, "s1");
            assert_eq!(symbol, "XYZ");
            assert_eq!(*sequence, 60);
            assert!(*timestamp > 0);
            match data {
                MarketDataUpdate::MBP { bids, asks } => {
                    assert_eq!(bids.len(), 5);
                    assert_eq!(asks.len(), 5);
                }
                other => panic!("unexpected view: {other:?}"),
            }
        }
        other => panic!("unexpected message: {other:?}"),
    }
}

#[test]
fn a_subscription_without_levels_gets_twenty() {
    let mut manager = StreamManager::new();
    let mut receiver = connect(&mut manager, 7);
    manager.subscribe(7, "s".to_string(), "XYZ".to_string(), DataType::MBO, None).unwrap();
    match drain(&mut receiver).pop().unwrap() {
        ServerMessage::MarketData { data: MarketDataUpdate::MBO { bids, asks }, .. } => {
            assert_eq!(bids.len(), 20);
            assert_eq!(asks.len(), 20);
        }
        other => panic!("unexpected message: {other:?}"),
    }
    let made = Subscription::new("s".to_string(), "XYZ".to_string(), DataType::MBO, None, 7);
    assert_eq!(made.max_levels, 20);
    assert_eq!(Subscription::new("s".to_string(), "X".to_string(), DataType::MBP, Some(3), 7).max_levels, 3);
}

#[test]
fn an_unknown_client_cannot_subscribe() {
    let mut manager = StreamManager::new();
    let outcome = manager.subscribe(9, "s".to_string(), "XYZ".to_string(), DataType::MBP, Some(5));
    assert_eq!(outcome, Err(SubscribeError::UnknownClient));
    assert!(manager.get_symbols().is_empty());
    assert!(manager.add_subscription(9, "s".to_string(), "XYZ".to_string(), DataType::MBP, None, 0).is_err());
    let streams = vec![("XYZ".to_string(), DataType::MBP, 5)];
    assert_eq!(manager.subscribe_to_streams(9, streams), Err(SubscribeError::UnknownClient));
    assert_eq!(SubscribeError::UnknownClient.message(), "Unknown client");
}

#[test]
fn a_closed_queue_fails_the_subscription_and_leaves_it_for_the_disconnect() {
    let mut manager = StreamManager::new();
    let receiver = connect(&mut manager, 7);
    drop(receiver);
    let outcome = manager.subscribe(7, "s".to_string(), "XYZ".to_string(), DataType::MBP, Some(5));
    assert_eq!(outcome, Err(SubscribeError::ChannelClosed));
    assert_eq!(SubscribeError::ChannelClosed.message(), "Failed to send initial snapshot");
    assert_eq!(manager.snapshots_for(0, 0).len(), 1);
    manager.unregister_client(&7);
    assert!(manager.snapshots_for(0, 0).is_empty());
    assert_eq!(manager.get_symbols(), vec!["XYZ"]);
}

#[test]
fn the_planned_snapshot_is_the_view_asked_for() {
    let mut manager = StreamManager::new();
    let _receiver = connect(&mut manager, 7);
    let message = manager
        .add_subscription(7, "mine".to_string(), "XYZ".to_string(), DataType::MBO, Some(2), 1_000)
        .unwrap();
    let expected =
        manager.get_order_book_snapshot_at("XYZ", DataType::MBO, 2, 1_000).unwrap();
    assert_eq!(
        message,
        ServerMessage::MarketData {
            stream_id: "mine".to_string(),
            symbol: "XYZ".to_string(),
            data: expected,
            sequence: 60,
            timestamp: 1_000,
        }
    );
}

#[test]
fn every_tick_sends_each_subscription_one_view() {
    let mut manager = StreamManager::new();
    let mut first = connect(&mut manager, 1);
    let mut second = connect(&mut manager, 2);
    manager.subscribe(1, "a".to_string(), "XYZ".to_string(), DataType::MBP, Some(3)).unwrap();
    manager.subscribe(1, "b".to_string(), "ABC".to_string(), DataType::MBO, Some(2)).unwrap();
    manager.subscribe(2, "c".to_string(), "XYZ".to_string(), DataType::MBO, Some(1)).unwrap();
    drain(&mut first);
    drain(&mut second);
    let mut sequence = 60;
    for _ in 0..5 {
        let activities = manager.market_tick();
        assert!(activities.len() >= 2 && activities.len() <= 16);
        let to_first = drain(&mut first);
        let to_second = drain(&mut second);
        assert_eq!(to_first.len(), 2);
        assert_eq!(to_second.len(), 1);
        let applied = activities.iter().filter(|a| a.symbol == "XYZ").count() as u64;
        sequence += applied;
        match (&to_first[0], &to_first[1], &to_second[0]) {
            (
                ServerMessage::MarketData { stream_id: a, symbol: xyz, data: by_price, sequence: s1, .. },
                ServerMessage::MarketData { stream_id: b, symbol: abc, data: by_order, .. },
                ServerMessage::MarketData { stream_id: c, sequence: s2, .. },
            ) => {
                assert_eq!((a.as_str(), b.as_str(), c.as_str()), ("a", "b", "c"));
                assert_eq!((xyz.as_str(), abc.as_str()), ("XYZ", "ABC"));
                assert_eq!(*s1, sequence);
                assert_eq!(*s2, sequence);
                assert!(matches!(by_price, MarketDataUpdate::MBP { .. }));
                assert!(matches!(by_order, MarketDataUpdate::MBO { .. }));
            }
            other => panic!("unexpected messages: {other:?}"),
        }
    }
}

#[test]
fn a_disconnected_client_is_sent_nothing_more() {
    let mut manager = StreamManager::new();
    let mut gone = connect(&mut manager, 1);
    let mut stays = connect(&mut manager, 2);
    manager.subscribe(1, "a".to_string(), "XYZ".to_string(), DataType::MBP, Some(3)).unwrap();
    manager.subscribe(1, "b".to_string(), "ABC".to_string(), DataType::MBP, Some(3)).unwrap();
    manager.subscribe(2, "a".to_string(), "XYZ".to_string(), DataType::MBP, Some(3)).unwrap();
    drain(&mut gone);
    drain(&mut stays);
    manager.unregister_client(&1);
    assert!(!manager.is_registered(1));
    assert!(manager.is_registered(2));
    manager.unregister_client(&1);
    manager.market_tick();
    assert_eq!(manager.send_heartbeats(), 1);
    assert!(drain(&mut gone).is_empty());
    assert_eq!(drain(&mut stays).len(), 2);
    assert!(manager.snapshots_for(1, 0).is_empty());
    let left: Vec<ClientId> = manager.snapshots_for(0, 0).iter().map(|d| d.client_id).collect();
    assert_eq!(left, vec![2]);
    // The books stay.
    assert_eq!(manager.get_symbols(), vec!["XYZ", "ABC"]);
}

#[test]
fn disconnecting_keeps_the_other_clients_findable() {
    let mut manager = StreamManager::new();
    let mut receivers: Vec<UnboundedReceiver<ServerMessage>> =
        (10..15).map(|client| connect(&mut manager, client)).collect();
    manager.unregister_client(&10);
    manager.unregister_client(&12);
    manager.unregister_client(&14);
    for client in [10, 12, 14] {
        assert!(!manager.is_registered(client));
        assert!(!manager.send_to(client, ServerMessage::HeartBeat { timestamp: 1 }));
    }
    for client in [11u128, 13] {
        assert!(manager.is_registered(client));
        assert!(manager.send_to(client, ServerMessage::HeartBeat { timestamp: client as i64 }));
    }
    assert_eq!(drain(&mut receivers[1]), vec![ServerMessage::HeartBeat { timestamp: 11 }]);
    assert_eq!(drain(&mut receivers[3]), vec![ServerMessage::HeartBeat { timestamp: 13 }]);
    assert!(drain(&mut receivers[0]).is_empty());
    let mut owed: Vec<ClientId> = manager.heartbeats(5).iter().map(|d| d.client_id).collect();
    owed.sort();
    assert_eq!(owed, vec![11, 13]);
}

#[test]
fn unsubscribing_ends_the_named_stream_of_that_client_only() {
    let mut manager = StreamManager::new();
    let mut first = connect(&mut manager, 1);
    let mut second = connect(&mut manager, 2);
    manager.subscribe(1, "a".to_string(), "XYZ".to_string(), DataType::MBP, Some(3)).unwrap();
    manager.subscribe(1, "b".to_string(), "XYZ".to_string(), DataType::MBP, Some(3)).unwrap();
    manager.subscribe(2, "a".to_string(), "XYZ".to_string(), DataType::MBP, Some(3)).unwrap();
    manager.subscribe(1, "a".to_string(), "ABC".to_string(), DataType::MBP, Some(3)).unwrap();
    assert!(!manager.unsubscribe(1, "zzz"));
    assert!(!manager.unsubscribe(3, "a"));
    assert!(manager.unsubscribe(1, "a"));
    assert!(!manager.unsubscribe(1, "a"));
    let owners: Vec<(ClientId, String)> = manager
        .snapshots_for(0, 0)
        .into_iter()
        .map(|d| match d.message {
            ServerMessage::MarketData { stream_id, .. } => (d.client_id, stream_id),
            other => panic!("unexpected message: {other:?}"),
        })
        .collect();
    assert_eq!(owners, vec![(1, "b".to_string()), (2, "a".to_string())]);
    assert!(manager.snapshots_for(1, 0).is_empty());
    assert_eq!(manager.get_symbols(), vec!["XYZ", "ABC"]);
    drain(&mut first);
    drain(&mut second);
    manager.market_tick();
    assert_eq!(drain(&mut first).len(), 1);
    assert_eq!(drain(&mut second).len(), 1);
}

#[test]
fn registering_again_replaces_the_queue_and_keeps_the_subscriptions() {
    let mut manager = StreamManager::new();
    let mut old = connect(&mut manager, 1);
    manager.subscribe(1, "a".to_string(), "XYZ".to_string(), DataType::MBP, Some(3)).unwrap();
    drain(&mut old);
    let mut new = connect(&mut manager, 1);
    manager.market_tick();
    assert!(drain(&mut old).is_empty());
    assert_eq!(drain(&mut new).len(), 1);
    // The old queue was dropped by the registry: its receiver sees it closed.
    assert!(matches!(
        old.try_recv(),
        Err(tokio::sync::mpsc::error::TryRecvError::Disconnected)
    ));
    assert_eq!(manager.heartbeats(0).len(), 1);
}

#[test]
fn heartbeats_go_to_every_connected_client() {
    let mut manager = StreamManager::new();
    let mut first = connect(&mut manager, 1);
    let mut second = connect(&mut manager, 2);
    assert_eq!(
        manager.heartbeats(99),
        vec![
            Delivery { client_id: 1, message: ServerMessage::HeartBeat { timestamp: 99 } },
            Delivery { client_id: 2, message: ServerMessage::HeartBeat { timestamp: 99 } },
        ]
    );
    assert_eq!(manager.send_heartbeats(), 2);
    assert!(matches!(drain(&mut first).as_slice(), [ServerMessage::HeartBeat { .. }]));
    drop(second.close());
    assert_eq!(manager.send_heartbeats(), 1);
    assert_eq!(drain(&mut first).len(), 1);
}

#[test]
fn messages_are_dispatched_in_order() {
    let mut manager = StreamManager::new();
    let mut receiver = connect(&mut manager, 1);
    let deliveries = (0..4)
        .map(|n| Delivery {
            client_id: if n == 2 { 5 } else { 1 },
            message: ServerMessage::HeartBeat { timestamp: n },
        })
        .collect();
    assert_eq!(manager.dispatch(deliveries), 3);
    assert_eq!(
        drain(&mut receiver),
        vec![
            ServerMessage::HeartBeat { timestamp: 0 },
            ServerMessage::HeartBeat { timestamp: 1 },
            ServerMessage::HeartBeat { timestamp: 3 },
        ]
    );
}

#[test]
fn a_connected_client_is_told_who_it_is_and_what_there_is() {
    let mut manager = StreamManager::new();
    manager.start();
    let id = uuid::Uuid::parse_str("a1a2a3a4-b1b2-c1c2-d1d2-d3d4d5d6d7d8").unwrap();
    let mut receiver = connect(&mut manager, id.as_u128());
    assert!(manager.send_connection_info(id.as_u128()));
    assert!(!manager.send_connection_info(3));
    match drain(&mut receiver).as_slice() {
        [ServerMessage::ConnectionInfo { client_id, server_time, supported_symbols }] => {
            assert_eq!(client_id, "a1a2a3a4-b1b2-c1c2-d1d2-d3d4d5d6d7d8");
            assert!(*server_time > 0);
            assert_eq!(supported_symbols, &vec!["BTCUSD", "ETHUSD", "ADAUSD"]);
        }
        other => panic!("unexpected messages: {other:?}"),
    }
    assert_eq!(
        manager.connection_info_for(0x0123_4567_89ab_cdef_0011_2233_4455_6677, 8),
        ServerMessage::ConnectionInfo {
            client_id: "01234567-89ab-cdef-0011-223344556677".to_string(),
            server_time: 8,
            supported_symbols: vec!["BTCUSD".to_string(), "ETHUSD".to_string(), "ADAUSD".to_string()],
        }
    );
    assert_eq!(
        manager.connection_info("me".to_string(), 5),
        ServerMessage::ConnectionInfo {
            client_id: "me".to_string(),
            server_time: 5,
            supported_symbols: vec!["BTCUSD".to_string(), "ETHUSD".to_string(), "ADAUSD".to_string()],
        }
    );
}

#[test]
fn derived_stream_ids_name_symbol_type_and_levels() {
    assert_eq!(derive_stream_id("BTCUSD", DataType::MBP, 20), "BTCUSD_MBP_20");
    assert_eq!(derive_stream_id("ETHUSD", DataType::MBO, 0), "ETHUSD_MBO_0");
    assert_eq!(derive_stream_id("", DataType::MBO, u32::MAX), "_MBO_4294967295");
}

#[test]
fn stream_definitions_are_subscribed_under_derived_ids() {
    let mut manager = StreamManager::new();
    let mut receiver = connect(&mut manager, 1);
    let streams =
        vec![("BTCUSD".to_string(), DataType::MBP, 20), ("ETHUSD".to_string(), DataType::MBO, 10)];
    assert_eq!(manager.subscribe_to_streams(1, streams), Ok(()));
    let ids: Vec<String> = drain(&mut receiver)
        .into_iter()
        .map(|message| match message {
            ServerMessage::MarketData { stream_id, .. } => stream_id,
            other => panic!("unexpected message: {other:?}"),
        })
        .collect();
    assert_eq!(ids, vec!["BTCUSD_MBP_20", "ETHUSD_MBO_10"]);
    assert!(manager.unsubscribe(1, "ETHUSD_MBO_10"));
    assert_eq!(manager.subscribe_to_streams(1, Vec::new()), Ok(()));
    drop(receiver);
    let more = vec![("A".to_string(), DataType::MBP, 1), ("B".to_string(), DataType::MBP, 1)];
    assert_eq!(manager.subscribe_to_streams(1, more), Err(SubscribeError::ChannelClosed));
    // The first was made, the second was not tried.
    assert_eq!(manager.get_symbols(), vec!["BTCUSD", "ETHUSD", "A"]);
}

#[test]
fn requests_are_answered() {
    let mut manager = StreamManager::new();
    let mut receiver = connect(&mut manager, 1);
    let subscribe = ClientMessage::Subscribe {
        stream_id: "s".to_string(),
        symbol: "XYZ".to_string(),
        data_type: DataType::MBO,
        max_levels: None,
    };
    assert_eq!(
        manager.handle_message(1, subscribe.clone()),
        ServerMessage::Subscribed {
            stream_id: "s".to_string(),
            symbol: "XYZ".to_string(),
            data_type: DataType::MBO,
        }
    );
    assert_eq!(drain(&mut receiver).len(), 1);
    assert_eq!(
        manager.handle_message(2, subscribe),
        ServerMessage::Error {
            code: 500,
            message: "Subscription failed: Unknown client".to_string(),
            stream_id: Some("s".to_string()),
        }
    );
    let unsubscribe = ClientMessage::Unsubscribe { stream_id: "s".to_string() };
    assert_eq!(
        manager.handle_message(1, unsubscribe.clone()),
        ServerMessage::Unsubscribed { stream_id: "s".to_string() }
    );
    assert_eq!(
        manager.handle_message(1, unsubscribe.clone()),
        ServerMessage::Error {
            code: 404,
            message: "Stream not found".to_string(),
            stream_id: Some("s".to_string()),
        }
    );
    assert!(matches!(
        manager.handle_message(1, ClientMessage::Ping { timestamp: 3 }),
        ServerMessage::HeartBeat { .. }
    ));
    assert!(manager.serve_message(1, unsubscribe));
    assert!(matches!(drain(&mut receiver).as_slice(), [ServerMessage::Error { code: 404, .. }]));
    assert!(!manager.serve_message(2, ClientMessage::Ping { timestamp: 3 }));
}

#[test]
fn replies_say_what_happened() {
    assert_eq!(
        reply_to_subscribe(
            Err(SubscribeError::ChannelClosed),
            "s".to_string(),
            "XYZ".to_string(),
            DataType::MBP
        ),
        ServerMessage::Error {
            code: 500,
            message: "Subscription failed: Failed to send initial snapshot".to_string(),
            stream_id: Some("s".to_string()),
        }
    );
    assert_eq!(
        reply_to_unsubscribe(true, "s".to_string()),
        ServerMessage::Unsubscribed { stream_id: "s".to_string() }
    );
    assert_eq!(
        reply_to_invalid("expected value at line 1 column 1"),
        ServerMessage::Error {
            code: 400,
            message: "Invalid message: expected value at line 1 column 1".to_string(),
            stream_id: None,
        }
    );
}

#[test]
fn messages_are_framed_as_events() {
    let heartbeat = ServerMessage::HeartBeat { timestamp: 1 };
    assert_eq!(heartbeat.event_name(), "heartbeat");
    assert_eq!(heartbeat.to_sse_data(Some("{\"t\":1}")), "data: {\"t\":1}\n\n");
    assert_eq!(
        heartbeat.to_sse_event(Some("{\"t\":1}")),
        "event: heartbeat\ndata: {\"t\":1}\n\n"
    );
    assert_eq!(
        heartbeat.to_sse_data(None),
        "data: {\"event\":\"error\",\"message\":\"Serialization failed\"}\n\n"
    );
    assert_eq!(
        heartbeat.to_sse_event(None),
        "event: error\ndata: {\"message\":\"Serialization failed\"}\n\n"
    );
    let error = ServerMessage::Error { code: 1, message: String::new(), stream_id: None };
    assert_eq!(error.event_name(), "error");
    let info = ServerMessage::ConnectionInfo {
        client_id: String::new(),
        server_time: 0,
        supported_symbols: Vec::new(),
    };
    assert_eq!(info.to_sse_event(Some("{}")), "event: connection_info\ndata: {}\n\n");
    let data = ServerMessage::MarketData {
        stream_id: "s".to_string(),
        symbol: "X".to_string(),
        data: MarketDataUpdate::MBP { bids: Vec::new(), asks: Vec::new() },
        sequence: 0,
        timestamp: 0,
    };
    assert_eq!(data.event_name(), "market_data");
    assert_eq!(ServerMessage::Unsubscribed { stream_id: String::new() }.event_name(), "unsubscribed");
    assert_eq!(
        ServerMessage::Subscribed {
            stream_id: String::new(),
            symbol: String::new(),
            data_type: DataType::MBP
        }
        .event_name(),
        "subscribed"
    );
}

#[test]
fn the_queue_of_a_client_is_the_one_it_was_last_registered_with() {
    let mut manager = StreamManager::new();
    let (first, mut first_end) = unbounded_channel::<ServerMessage>();
    let (second, mut second_end) = unbounded_channel::<ServerMessage>();
    manager.register_client(1, first.clone());
    manager.register_client(2, second.clone());
    assert!(manager.get_client_sender(&1).unwrap().same_channel(&first));
    assert!(manager.get_client_sender(&2).unwrap().same_channel(&second));
    manager.subscribe(1, "s".to_string(), "XYZ".to_string(), DataType::MBP, Some(1)).unwrap();
    manager.unregister_client(&2);
    assert!(manager.get_client_sender(&1).unwrap().same_channel(&first));
    assert!(manager.get_client_sender(&2).is_none());
    drain(&mut first_end);
    assert!(manager.send_to(1, ServerMessage::HeartBeat { timestamp: 4 }));
    assert_eq!(drain(&mut first_end), vec![ServerMessage::HeartBeat { timestamp: 4 }]);
    manager.register_client(1, second.clone());
    assert!(manager.get_client_sender(&1).unwrap().same_channel(&second));
    assert!(manager.send_to(1, ServerMessage::HeartBeat { timestamp: 5 }));
    assert!(drain(&mut first_end).is_empty());
    assert_eq!(drain(&mut second_end), vec![ServerMessage::HeartBeat { timestamp: 5 }]);
}
