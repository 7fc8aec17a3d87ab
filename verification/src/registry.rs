//! The registry as a mathematical value: what it holds, what each operation
//! makes of it, and what the messages that it sends say.

use vstd::prelude::*;

use crate::activity::{is_generated, is_sample_book};
use crate::channel::ClientSender;
use crate::depth::is_market_data;
use crate::message::{
    levels_or_default, ClientId, ClientMessage, DataType, DeliveryView, OrderActivityView,
    ServerMessageView, Subscription, SubscriptionView,
};
use crate::order_book::BookView;
use crate::seq_facts::lemma_filter_keeps_all;
use crate::stream_manager::SubscribeError;
use crate::text::decimal;

verus! {

/// The mathematical value of what the registry holds for one symbol.
pub struct SymbolView {
    pub book: BookView,
    pub subscriptions: Seq<SubscriptionView>,
}

/// The mathematical value of what the registry holds for one client: the
/// sending half of its queue, and the stream ids it owns.
pub struct ClientView {
    pub queue: ClientSender,
    pub streams: Seq<Seq<char>>,
}

/// The mathematical value of a [`StreamManager`]: the symbols in the order
/// they were first seen, and for each connected client its queue and the
/// stream ids it owns.
pub struct RegistryView {
    pub symbols: Seq<SymbolView>,
    pub clients: Map<ClientId, ClientView>,
}

/// The values of a sequence of subscriptions.
pub open spec fn subscription_views(subscriptions: Seq<Subscription>) -> Seq<SubscriptionView> {
    subscriptions.map_values(|s: Subscription| s@)
}

/// Whether a subscription is the one of `client` under `stream_id`.
pub open spec fn is_stream(subscription: SubscriptionView, client: ClientId, stream_id: Seq<char>)
    -> bool {
    subscription.client_id == client && subscription.stream_id == stream_id
}

/// Whether one of the subscriptions is the one of `client` under
/// `stream_id`.
pub open spec fn holds_stream(
    subscriptions: Seq<SubscriptionView>,
    client: ClientId,
    stream_id: Seq<char>,
) -> bool {
    exists|k: int|
        0 <= k < subscriptions.len() && is_stream(#[trigger] subscriptions[k], client, stream_id)
}

/// The test that a subscription is not the one of `client` under
/// `stream_id`.
pub open spec fn not_stream(client: ClientId, stream_id: Seq<char>) -> spec_fn(
    SubscriptionView,
) -> bool {
    |s: SubscriptionView| !is_stream(s, client, stream_id)
}

/// The subscriptions but those of `client` under `stream_id`.
pub open spec fn without_stream(
    subscriptions: Seq<SubscriptionView>,
    client: ClientId,
    stream_id: Seq<char>,
) -> Seq<SubscriptionView> {
    subscriptions.filter(not_stream(client, stream_id))
}

/// The test that a subscription is not one of `client`.
pub open spec fn not_client(client: ClientId) -> spec_fn(SubscriptionView) -> bool {
    |s: SubscriptionView| s.client_id != client
}

/// The subscriptions but those of `client`.
pub open spec fn without_client(subscriptions: Seq<SubscriptionView>, client: ClientId) -> Seq<
    SubscriptionView,
> {
    subscriptions.filter(not_client(client))
}

/// The test that a subscription is not one of `client` under one of the
/// stream ids.
pub open spec fn not_owned(client: ClientId, streams: Seq<Seq<char>>) -> spec_fn(
    SubscriptionView,
) -> bool {
    |s: SubscriptionView| !(s.client_id == client && streams.contains(s.stream_id))
}

/// The test that a text is not `text`.
pub open spec fn not_text(text: Seq<char>) -> spec_fn(Seq<char>) -> bool {
    |t: Seq<char>| t != text
}

/// The stream ids but `stream_id`.
pub open spec fn without_text(texts: Seq<Seq<char>>, text: Seq<char>) -> Seq<Seq<char>> {
    texts.filter(not_text(text))
}

impl SymbolView {
    /// The symbol that the slot is for.
    pub open spec fn symbol(self) -> Seq<char> {
        self.book.symbol
    }
}

impl RegistryView {
    /// Whether a symbol has been seen.
    pub open spec fn knows(self, symbol: Seq<char>) -> bool {
        exists|i: int| 0 <= i < self.symbols.len() && (#[trigger] self.symbols[i]).symbol() == symbol
    }

    /// Whether `client` has a subscription under `stream_id`.
    pub open spec fn has_stream(self, client: ClientId, stream_id: Seq<char>) -> bool {
        exists|i: int, k: int|
            0 <= i < self.symbols.len() && 0 <= k < self.symbols[i].subscriptions.len()
                && is_stream(#[trigger] self.symbols[i].subscriptions[k], client, stream_id)
    }

    /// What holds of every registry: no symbol is held twice; a subscription
    /// is held under its own symbol; its client is connected and owns its
    /// stream id.
    pub open spec fn consistent(self) -> bool {
        &&& forall|i: int, j: int|
            0 <= i < j < self.symbols.len() ==> (#[trigger] self.symbols[i]).symbol() != (
            #[trigger] self.symbols[j]).symbol()
        &&& forall|i: int, k: int|
            0 <= i < self.symbols.len() && 0 <= k < self.symbols[i].subscriptions.len() ==> {
                let subscription = #[trigger] self.symbols[i].subscriptions[k];
                &&& subscription.symbol == self.symbols[i].symbol()
                &&& self.clients.dom().contains(subscription.client_id)
                &&& self.clients[subscription.client_id].streams.contains(
                    subscription.stream_id,
                )
            }
    }

    /// The registry after `client` has connected with `queue`: from now on
    /// that is its queue. It owns no stream ids yet, unless it was
    /// connected already; then it keeps those it owns.
    pub open spec fn register(self, client: ClientId, queue: ClientSender) -> RegistryView {
        let streams = if self.clients.dom().contains(client) {
            self.clients[client].streams
        } else {
            Seq::empty()
        };
        RegistryView { clients: self.clients.insert(client, ClientView { queue, streams }), ..self }
    }

    /// The registry after `client` has gone: it is no longer connected, and
    /// none of its subscriptions is left.
    pub open spec fn unregister(self, client: ClientId) -> RegistryView {
        RegistryView {
            symbols: self.symbols.map_values(
                |s: SymbolView|
                    SymbolView { subscriptions: without_client(s.subscriptions, client), ..s },
            ),
            clients: self.clients.remove(client),
        }
    }

    /// The registry after the subscriptions of `client` under `stream_id`
    /// have ended.
    pub open spec fn unsubscribe(self, client: ClientId, stream_id: Seq<char>) -> RegistryView {
        RegistryView {
            symbols: self.symbols.map_values(
                |s: SymbolView|
                    SymbolView {
                        subscriptions: without_stream(s.subscriptions, client, stream_id),
                        ..s
                    },
            ),
            clients: if self.clients.dom().contains(client) {
                self.clients.insert(
                    client,
                    ClientView {
                        streams: without_text(self.clients[client].streams, stream_id),
                        ..self.clients[client]
                    },
                )
            } else {
                self.clients
            },
        }
    }

    /// The place of a symbol that has been seen.
    pub open spec fn place_of(self, symbol: Seq<char>) -> int {
        choose|i: int| 0 <= i < self.symbols.len() && (#[trigger] self.symbols[i]).symbol() == symbol
    }

    /// Whether `after` is this registry once a symbol has been seen: as it
    /// was if the symbol was known; else with the symbol behind the others,
    /// its book fresh and seeded, and nobody subscribed to it.
    pub open spec fn sees(self, after: RegistryView, symbol: Seq<char>) -> bool {
        if self.knows(symbol) {
            after == self
        } else {
            &&& after.clients == self.clients
            &&& after.symbols.len() == self.symbols.len() + 1
            &&& after.symbols.drop_last() == self.symbols
            &&& after.symbols.last().subscriptions == Seq::<SubscriptionView>::empty()
            &&& is_sample_book(after.symbols.last().book, symbol)
        }
    }

    /// The registry after a subscription to a symbol that has been seen was
    /// made: it is the last of the subscriptions to its symbol, and its
    /// client owns its stream id.
    pub open spec fn subscribe(self, subscription: SubscriptionView) -> RegistryView {
        let at = self.place_of(subscription.symbol);
        RegistryView {
            symbols: self.symbols.update(
                at,
                SymbolView {
                    subscriptions: self.symbols[at].subscriptions.push(subscription),
                    ..self.symbols[at]
                },
            ),
            clients: self.clients.insert(
                subscription.client_id,
                ClientView {
                    streams: self.clients[subscription.client_id].streams.push(
                        subscription.stream_id,
                    ),
                    ..self.clients[subscription.client_id]
                },
            ),
        }
    }

    /// Whether `after` is this registry once a subscription of a connected
    /// client has been made: the symbol is seen first, then the
    /// subscription is made.
    pub open spec fn subscribes(self, after: RegistryView, subscription: SubscriptionView) -> bool {
        exists|seen: RegistryView| #[trigger]
            self.sees(seen, subscription.symbol) && after == seen.subscribe(subscription)
    }

    /// Whether `after` is this registry once a sequence of subscriptions of
    /// connected clients has been made, first to last.
    pub open spec fn subscribes_all(self, after: RegistryView, subscriptions: Seq<SubscriptionView>)
        -> bool
        decreases subscriptions.len(),
    {
        if subscriptions.len() == 0 {
            after == self
        } else {
            exists|before_last: RegistryView|
                self.subscribes_all(before_last, subscriptions.drop_last())
                    && #[trigger] before_last.subscribes(after, subscriptions.last())
        }
    }

    /// The registry with another book at `place`.
    pub open spec fn with_book(self, place: int, book: BookView) -> RegistryView {
        RegistryView {
            symbols: self.symbols.update(place, SymbolView { book, ..self.symbols[place] }),
            ..self
        }
    }

    /// Whether `after` is this registry some ticks later: the same clients,
    /// the same symbols with the same subscriptions, and no book's sequence
    /// number behind where it was.
    pub open spec fn ticks_to(self, after: RegistryView) -> bool {
        &&& after.clients == self.clients
        &&& after.symbols.len() == self.symbols.len()
        &&& forall|i: int|
            0 <= i < self.symbols.len() ==> {
                &&& (#[trigger] after.symbols[i]).symbol() == self.symbols[i].symbol()
                &&& after.symbols[i].subscriptions == self.symbols[i].subscriptions
                &&& after.symbols[i].book.sequence >= self.symbols[i].book.sequence
            }
    }
}

/// Whether `message` is the snapshot of a book for a subscription at `now`:
/// the view that the subscription asks for, with the book's sequence number.
pub open spec fn is_snapshot(
    message: ServerMessageView,
    book: BookView,
    subscription: SubscriptionView,
    now: i64,
) -> bool {
    &&& message matches ServerMessageView::MarketData {
        stream_id,
        symbol,
        data,
        sequence,
        timestamp,
    }
    &&& stream_id == subscription.stream_id
    &&& symbol == book.symbol
    &&& is_market_data(data, book, subscription.data_type, subscription.max_levels, now)
    &&& sequence == book.sequence
    &&& timestamp == now
}

/// Whether `deliveries` are the snapshots that the subscribers of a symbol
/// are owed at `now`: one for each subscription, in their order, each for
/// its client.
pub open spec fn is_snapshots(deliveries: Seq<DeliveryView>, symbol: SymbolView, now: i64) -> bool {
    &&& deliveries.len() == symbol.subscriptions.len()
    &&& forall|k: int|
        0 <= k < deliveries.len() ==> {
            &&& (#[trigger] deliveries[k]).client_id == symbol.subscriptions[k].client_id
            &&& is_snapshot(deliveries[k].message, symbol.book, symbol.subscriptions[k], now)
        }
}

/// Whether `deliveries` are the heartbeats that the connected clients are
/// owed at `now`: one for each, and for nobody else.
pub open spec fn is_heartbeats(
    deliveries: Seq<DeliveryView>,
    clients: Map<ClientId, ClientView>,
    now: i64,
) -> bool {
    &&& forall|k: int|
        0 <= k < deliveries.len() ==> {
            &&& (#[trigger] deliveries[k]).message == (ServerMessageView::HeartBeat {
                timestamp: now,
            })
            &&& clients.dom().contains(deliveries[k].client_id)
        }
    &&& forall|j: int, k: int|
        0 <= j < k < deliveries.len() ==> (#[trigger] deliveries[j]).client_id != (
        #[trigger] deliveries[k]).client_id
    &&& forall|client: ClientId| #[trigger]
        clients.dom().contains(client) ==> exists|k: int|
            0 <= k < deliveries.len() && (#[trigger] deliveries[k]).client_id == client
}

/// The test that a message is for a connected client.
pub open spec fn to_connected(clients: Map<ClientId, ClientView>) -> spec_fn(
    DeliveryView,
) -> bool {
    |d: DeliveryView| clients.dom().contains(d.client_id)
}

/// The messages that are for connected clients.
pub open spec fn for_connected(
    deliveries: Seq<DeliveryView>,
    clients: Map<ClientId, ClientView>,
) -> Seq<DeliveryView> {
    deliveries.filter(to_connected(clients))
}

/// Whether `message` is what a client is told when it has connected: its
/// own identifier as text, the server's time, and the symbols seen so far.
pub open spec fn is_connection_info(
    message: ServerMessageView,
    registry: RegistryView,
    client_text: Seq<char>,
    now: i64,
) -> bool {
    message == (ServerMessageView::ConnectionInfo {
        client_id: client_text,
        server_time: now,
        supported_symbols: registry.symbols.map_values(|s: SymbolView| s.symbol()),
    })
}

/// The name of a data type.
pub open spec fn data_type_name(data_type: DataType) -> Seq<char> {
    match data_type {
        DataType::MBO => "MBO"@,
        DataType::MBP => "MBP"@,
    }
}

/// The stream id that the registry gives a subscription whose client names
/// none: the symbol, the data type and the number of levels, with
/// underscores between them.
pub open spec fn derived_stream_id(symbol: Seq<char>, data_type: DataType, max_levels: u32) -> Seq<
    char,
> {
    symbol + "_"@ + data_type_name(data_type) + "_"@ + decimal(max_levels as nat)
}

/// The subscription that a client makes by a stream definition, under the
/// stream id derived from it.
pub open spec fn derived_subscription(client: ClientId, definition: (Seq<char>, DataType, u32))
    -> SubscriptionView {
    SubscriptionView {
        stream_id: derived_stream_id(definition.0, definition.1, definition.2),
        symbol: definition.0,
        data_type: definition.1,
        max_levels: definition.2,
        client_id: client,
    }
}

/// The subscriptions that a client makes by a sequence of stream
/// definitions.
pub open spec fn derived_subscriptions(
    client: ClientId,
    definitions: Seq<(String, DataType, u32)>,
) -> Seq<SubscriptionView> {
    definitions.map_values(
        |d: (String, DataType, u32)| derived_subscription(client, (d.0@, d.1, d.2)),
    )
}

/// What a client is answered that asked for a subscription: that it is
/// subscribed, or why it is not.
pub open spec fn subscribe_reply(
    outcome: Result<(), SubscribeError>,
    stream_id: Seq<char>,
    symbol: Seq<char>,
    data_type: DataType,
) -> ServerMessageView {
    match outcome {
        Ok(()) => ServerMessageView::Subscribed { stream_id, symbol, data_type },
        Err(SubscribeError::UnknownClient) => ServerMessageView::Error {
            code: 500,
            message: "Subscription failed: Unknown client"@,
            stream_id: Some(stream_id),
        },
        Err(SubscribeError::ChannelClosed) => ServerMessageView::Error {
            code: 500,
            message: "Subscription failed: Failed to send initial snapshot"@,
            stream_id: Some(stream_id),
        },
    }
}

/// What a client is answered that asked for a subscription to end: that it
/// has ended, or that there was none.
pub open spec fn unsubscribe_reply(found: bool, stream_id: Seq<char>) -> ServerMessageView {
    if found {
        ServerMessageView::Unsubscribed { stream_id }
    } else {
        ServerMessageView::Error {
            code: 404,
            message: "Stream not found"@,
            stream_id: Some(stream_id),
        }
    }
}

/// Whether a registry that was `before` is `after`, and `reply` is the
/// answer owed, once it has done what `client` asked by `message`. A
/// subscription is made, for a connected client, and answered according to
/// whether its first snapshot was taken; for a client that is not connected
/// nothing is done. Subscriptions are ended, and the answer says whether
/// there was one. A ping changes nothing and is answered by a heartbeat.
pub open spec fn is_answer(
    before: RegistryView,
    after: RegistryView,
    client: ClientId,
    message: ClientMessage,
    reply: ServerMessageView,
) -> bool {
    match message {
        ClientMessage::Subscribe { stream_id, symbol, data_type, max_levels } => {
            let made = SubscriptionView {
                stream_id: stream_id@,
                symbol: symbol@,
                data_type,
                max_levels: levels_or_default(max_levels),
                client_id: client,
            };
            if before.clients.dom().contains(client) {
                &&& before.subscribes(after, made)
                &&& exists|outcome: Result<(), SubscribeError>|
                    outcome != Err::<(), SubscribeError>(SubscribeError::UnknownClient) && reply
                        == #[trigger] subscribe_reply(outcome, stream_id@, symbol@, data_type)
            } else {
                &&& after == before
                &&& reply == subscribe_reply(
                    Err(SubscribeError::UnknownClient),
                    stream_id@,
                    symbol@,
                    data_type,
                )
            }
        },
        ClientMessage::Unsubscribe { stream_id } => {
            &&& after == before.unsubscribe(client, stream_id@)
            &&& reply == unsubscribe_reply(before.has_stream(client, stream_id@), stream_id@)
        },
        ClientMessage::Ping { timestamp } => {
            &&& after == before
            &&& reply is HeartBeat
        },
    }
}

/// The time from one tick of the simulation to the next, in milliseconds.
pub const SIMULATION_PERIOD_MS: u64 = 300;

/// The time from one round of heartbeats to the next, in milliseconds.
pub const HEARTBEAT_PERIOD_MS: u64 = 30_000;

/// The most order events that one tick applies to one book.
pub const TICK_ACTIVITY_LIMIT: u64 = 8;

/// Whether `after` is what one tick makes of a symbol, and `events` are the
/// order events it applies: between one and [`TICK_ACTIVITY_LIMIT`] events,
/// each generated for the book that the events before it have left, while
/// the book's sequence number has room for as many; else none. The
/// subscriptions stay.
pub open spec fn is_symbol_tick(
    before: SymbolView,
    after: SymbolView,
    events: Seq<OrderActivityView>,
) -> bool {
    &&& after == (SymbolView { book: before.book.run(events), ..before })
    &&& after.book.sequence == before.book.sequence + events.len()
    &&& if before.book.sequence + TICK_ACTIVITY_LIMIT <= u64::MAX {
        &&& 1 <= events.len() <= TICK_ACTIVITY_LIMIT
        &&& forall|k: int|
            0 <= k < events.len() ==> is_generated(
                before.book.run(events.take(k)),
                #[trigger] events[k],
            )
    } else {
        events.len() == 0
    }
}

/// Whether `after` is what one tick makes of the symbols `before`, and
/// `events` are the order events it applies, symbol by symbol in their
/// order.
pub open spec fn is_tick(
    before: Seq<SymbolView>,
    after: Seq<SymbolView>,
    events: Seq<OrderActivityView>,
) -> bool
    decreases before.len(),
{
    if before.len() == 0 {
        after.len() == 0 && events.len() == 0
    } else {
        &&& after.len() == before.len()
        &&& exists|n: int|
            0 <= n <= events.len() && is_tick(
                before.drop_last(),
                after.drop_last(),
                events.take(n),
            ) && #[trigger] is_symbol_tick(before.last(), after.last(), events.skip(n))
    }
}

/// In a consistent registry a symbol that has been seen is at its place,
/// and nowhere else.
pub proof fn lemma_place_of(registry: RegistryView, at: int)
    requires
        registry.consistent(),
        0 <= at < registry.symbols.len(),
    ensures
        registry.knows(registry.symbols[at].symbol()),
        registry.place_of(registry.symbols[at].symbol()) == at,
{
    let symbol = registry.symbols[at].symbol();
    let found = registry.place_of(symbol);
    if found < at {
        assert(registry.symbols[found].symbol() != registry.symbols[at].symbol());
    } else if at < found {
        assert(registry.symbols[at].symbol() != registry.symbols[found].symbol());
    }
}

/// Seeing a symbol leaves what the registry held as it was.
pub proof fn lemma_sees_keeps(before: RegistryView, after: RegistryView, symbol: Seq<char>)
    requires
        before.sees(after, symbol),
    ensures
        after.clients == before.clients,
        after.symbols.len() >= before.symbols.len(),
        forall|i: int|
            0 <= i < before.symbols.len() ==> (#[trigger] after.symbols[i]) == before.symbols[i],
{
    if !before.knows(symbol) {
        assert forall|i: int| 0 <= i < before.symbols.len() implies (#[trigger] after.symbols[i])
            == before.symbols[i] by {
            assert(after.symbols.drop_last()[i] == after.symbols[i]);
        }
    }
}

/// A subscription of a connected client to a symbol that has been seen
/// keeps a registry consistent.
pub proof fn lemma_subscribe_consistent(registry: RegistryView, subscription: SubscriptionView)
    requires
        registry.consistent(),
        registry.knows(subscription.symbol),
        registry.clients.dom().contains(subscription.client_id),
    ensures
        registry.subscribe(subscription).consistent(),
{
    let after = registry.subscribe(subscription);
    let at = registry.place_of(subscription.symbol);
    let client = subscription.client_id;
    let owned = registry.clients[client].streams;
    assert forall|i: int, k: int|
        0 <= i < after.symbols.len() && 0 <= k < after.symbols[i].subscriptions.len() implies {
        let held = #[trigger] after.symbols[i].subscriptions[k];
        &&& held.symbol == after.symbols[i].symbol()
        &&& after.clients.dom().contains(held.client_id)
        &&& after.clients[held.client_id].streams.contains(held.stream_id)
    } by {
        let held = after.symbols[i].subscriptions[k];
        if i == at && k == registry.symbols[i].subscriptions.len() {
            assert(owned.push(subscription.stream_id)[owned.len() as int] == held.stream_id);
        } else {
            assert(held == registry.symbols[i].subscriptions[k]);
            if held.client_id == client {
                let n = choose|n: int| 0 <= n < owned.len() && owned[n] == held.stream_id;
                assert(owned.push(subscription.stream_id)[n] == held.stream_id);
            }
        }
    }
    assert forall|i: int, j: int| 0 <= i < j < after.symbols.len() implies (
    #[trigger] after.symbols[i]).symbol() != (#[trigger] after.symbols[j]).symbol() by {
        assert(after.symbols[i].symbol() == registry.symbols[i].symbol());
        assert(after.symbols[j].symbol() == registry.symbols[j].symbol());
    }
}

/// Ending subscriptions keeps a registry consistent.
pub proof fn lemma_unsubscribe_consistent(
    registry: RegistryView,
    client: ClientId,
    stream_id: Seq<char>,
)
    requires
        registry.consistent(),
    ensures
        registry.unsubscribe(client, stream_id).consistent(),
{
    let after = registry.unsubscribe(client, stream_id);
    assert forall|i: int, k: int|
        0 <= i < after.symbols.len() && 0 <= k < after.symbols[i].subscriptions.len() implies {
        let subscription = #[trigger] after.symbols[i].subscriptions[k];
        &&& subscription.symbol == after.symbols[i].symbol()
        &&& after.clients.dom().contains(subscription.client_id)
        &&& after.clients[subscription.client_id].streams.contains(subscription.stream_id)
    } by {
        let all = registry.symbols[i].subscriptions;
        let kept = without_stream(all, client, stream_id);
        let x = kept[k];
        all.lemma_filter_pred(not_stream(client, stream_id), k);
        assert(kept.contains(x));
        all.lemma_filter_contains_rev(not_stream(client, stream_id), x);
        let m = choose|m: int| 0 <= m < all.len() && all[m] == x;
        assert(registry.symbols[i].subscriptions[m] == x);
        if x.client_id == client {
            let streams = registry.clients[client].streams;
            let n = choose|n: int| 0 <= n < streams.len() && streams[n] == x.stream_id;
            streams.lemma_filter_contains(not_text(stream_id), n);
        }
    }
}

/// Disconnecting a client keeps a registry consistent.
pub proof fn lemma_unregister_consistent(registry: RegistryView, client: ClientId)
    requires
        registry.consistent(),
    ensures
        registry.unregister(client).consistent(),
{
    let after = registry.unregister(client);
    assert forall|i: int, k: int|
        0 <= i < after.symbols.len() && 0 <= k < after.symbols[i].subscriptions.len() implies {
        let subscription = #[trigger] after.symbols[i].subscriptions[k];
        &&& subscription.symbol == after.symbols[i].symbol()
        &&& after.clients.dom().contains(subscription.client_id)
        &&& after.clients[subscription.client_id].streams.contains(subscription.stream_id)
    } by {
        let all = registry.symbols[i].subscriptions;
        let kept = without_client(all, client);
        let x = kept[k];
        all.lemma_filter_pred(not_client(client), k);
        assert(kept.contains(x));
        all.lemma_filter_contains_rev(not_client(client), x);
        let m = choose|m: int| 0 <= m < all.len() && all[m] == x;
        assert(registry.symbols[i].subscriptions[m] == x);
    }
}

/// A client that is not connected has no subscriptions: disconnecting it
/// changes nothing.
pub proof fn lemma_unregister_unknown(registry: RegistryView, client: ClientId)
    requires
        registry.consistent(),
        !registry.clients.dom().contains(client),
    ensures
        registry.unregister(client) == registry,
{
    let after = registry.unregister(client);
    assert forall|i: int| 0 <= i < registry.symbols.len() implies after.symbols[i]
        == registry.symbols[i] by {
        let all = registry.symbols[i].subscriptions;
        assert forall|k: int| 0 <= k < all.len() implies not_client(client)(#[trigger] all[k]) by {
            assert(registry.symbols[i].subscriptions[k] == all[k]);
        }
        lemma_filter_keeps_all(all, not_client(client));
    }
    assert(after.symbols =~= registry.symbols);
    assert(after.clients =~= registry.clients);
}

/// Disconnecting a client a second time changes nothing.
pub proof fn lemma_unregister_again(registry: RegistryView, client: ClientId)
    ensures
        registry.unregister(client).unregister(client) == registry.unregister(client),
{
    let once = registry.unregister(client);
    let twice = once.unregister(client);
    assert forall|i: int| 0 <= i < once.symbols.len() implies twice.symbols[i]
        == once.symbols[i] by {
        let all = registry.symbols[i].subscriptions;
        let kept = without_client(all, client);
        assert forall|k: int| 0 <= k < kept.len() implies not_client(client)(#[trigger] kept[k]) by {
            all.lemma_filter_pred(not_client(client), k);
        }
        lemma_filter_keeps_all(kept, not_client(client));
    }
    assert(twice.symbols =~= once.symbols);
    assert(twice.clients =~= once.clients);
}

/// A client that has been disconnected is not connected, and no
/// subscription is left that is its own.
pub proof fn lemma_unregistered_owns_nothing(registry: RegistryView, client: ClientId)
    ensures
        !registry.unregister(client).clients.dom().contains(client),
        forall|i: int, k: int|
            0 <= i < registry.unregister(client).symbols.len() && 0 <= k < registry.unregister(
                client,
            ).symbols[i].subscriptions.len() ==> (#[trigger] registry.unregister(
                client,
            ).symbols[i].subscriptions[k]).client_id != client,
{
    let after = registry.unregister(client);
    assert forall|i: int, k: int|
        0 <= i < after.symbols.len() && 0 <= k < after.symbols[i].subscriptions.len() implies (
    #[trigger] after.symbols[i].subscriptions[k]).client_id != client by {
        registry.symbols[i].subscriptions.lemma_filter_pred(not_client(client), k);
    }
}

/// Once a client has been disconnected, no tick sends it a snapshot: of the
/// snapshots owed to the subscribers of any symbol, at any time, none is
/// for it.
pub proof fn lemma_no_snapshot_for_unregistered(
    registry: RegistryView,
    client: ClientId,
    place: int,
    deliveries: Seq<DeliveryView>,
    now: i64,
)
    requires
        0 <= place < registry.unregister(client).symbols.len(),
        is_snapshots(deliveries, registry.unregister(client).symbols[place], now),
    ensures
        forall|k: int| 0 <= k < deliveries.len() ==> (#[trigger] deliveries[k]).client_id != client,
{
    lemma_unregistered_owns_nothing(registry, client);
    let after = registry.unregister(client);
    assert forall|k: int| 0 <= k < deliveries.len() implies (#[trigger] deliveries[k]).client_id
        != client by {
        assert(after.symbols[place].subscriptions[k].client_id != client);
    }
}

/// Once a client has been disconnected, it is sent no heartbeat: of the
/// heartbeats owed at any time, none is for it.
pub proof fn lemma_no_heartbeat_for_unregistered(
    registry: RegistryView,
    client: ClientId,
    deliveries: Seq<DeliveryView>,
    now: i64,
)
    requires
        is_heartbeats(deliveries, registry.unregister(client).clients, now),
    ensures
        forall|k: int| 0 <= k < deliveries.len() ==> (#[trigger] deliveries[k]).client_id != client,
{
}

} // verus!
