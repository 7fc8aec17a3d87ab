//! The registry of symbols, clients and subscriptions, and what it sends to
//! whom.

use dashmap::DashMap;
use vstd::prelude::*;

use crate::activity::{activity_views, lemma_run_symbol};
use crate::channel::{push, ClientSender};
use crate::client_name::{client_id_text, hyphenated};
use crate::clock::now_millis;
use crate::depth::is_market_data;
use crate::index::{
    client_index_get, client_index_insert, client_index_new, client_index_remove, client_slots,
    symbol_index_get, symbol_index_insert, symbol_index_new, symbol_slots,
};
use crate::message::{
    delivery_views, levels_or_default, ClientId, ClientMessage, DataType, Delivery,
    DeliveryView, MarketDataUpdate, OrderActivity, ServerMessage, ServerMessageView, Subscription,
    SubscriptionView,
};
use crate::order_book::OrderBook;
use crate::registry::{
    derived_stream_id, derived_subscriptions, for_connected, holds_stream, is_answer,
    is_connection_info, is_heartbeats, is_snapshot, is_snapshots, is_stream, is_symbol_tick,
    is_tick, lemma_place_of, lemma_sees_keeps, lemma_subscribe_consistent,
    lemma_unregister_consistent, lemma_unregister_unknown, lemma_unsubscribe_consistent,
    not_client, not_owned, not_stream, not_text, subscribe_reply, subscription_views,
    to_connected, unsubscribe_reply, without_stream, without_text, ClientView, RegistryView,
    SymbolView, TICK_ACTIVITY_LIMIT,
};
use crate::seq_facts::{
    lemma_filter_keeps_all, lemma_filter_same, lemma_filter_take_step, lemma_filter_twice,
};
use crate::text::{push_decimal, text_views};

verus! {

/// What the registry holds for one symbol: its book, and the subscriptions
/// to it in the order they were made.
#[derive(Debug)]
pub struct SymbolSlot {
    pub(crate) book: OrderBook,
    pub(crate) subscriptions: Vec<Subscription>,
}

/// What the registry holds for one client: the sending half of its queue,
/// and the stream ids of its subscriptions.
#[derive(Debug)]
pub struct ClientSlot {
    pub(crate) id: ClientId,
    pub(crate) sender: ClientSender,
    pub(crate) streams: Vec<String>,
}

/// The registry: every symbol seen so far with its book and subscriptions,
/// and every client connected now with its queue and its stream ids.
#[derive(Debug)]
pub struct StreamManager {
    /// From a symbol to its place in `symbols`.
    pub(crate) symbol_index: DashMap<String, usize>,
    /// In the order the symbols were first seen.
    pub(crate) symbols: Vec<SymbolSlot>,
    /// From a client to its place in `clients`.
    pub(crate) client_index: DashMap<ClientId, usize>,
    pub(crate) clients: Vec<ClientSlot>,
}

/// The name that the event-stream front end knows [`StreamManager`] by.
pub type SSEStreamManager = StreamManager;

/// The value of a symbol slot.
pub(crate) open spec fn slot_view(slot: SymbolSlot) -> SymbolView {
    SymbolView { book: slot.book@, subscriptions: subscription_views(slot.subscriptions@) }
}

/// The value of a client slot.
pub(crate) open spec fn client_view(slot: ClientSlot) -> ClientView {
    ClientView { queue: slot.sender, streams: text_views(slot.streams@) }
}

impl View for StreamManager {
    type V = RegistryView;

    closed spec fn view(&self) -> RegistryView {
        RegistryView {
            symbols: self.symbols@.map_values(|s: SymbolSlot| slot_view(s)),
            clients: Map::new(
                |client: ClientId| client_slots(self.client_index).dom().contains(client),
                |client: ClientId|
                    client_view(self.clients@[client_slots(self.client_index)[client] as int]),
            ),
        }
    }
}

/// Why a subscription was not made, or not made known to its client.
#[derive(Debug, Clone, Copy, PartialEq, Eq, Structural)]
pub enum SubscribeError {
    /// The client is not connected. Nothing was changed.
    UnknownClient,
    /// The client's queue did not take the first snapshot: its receiving
    /// half is closed. The subscription stands until the client is
    /// disconnected.
    ChannelClosed,
}

impl SubscribeError {
    /// What went wrong, in words.
    pub fn message(&self) -> (text: String)
        ensures
            text@ == match *self {
                SubscribeError::UnknownClient => "Unknown client"@,
                SubscribeError::ChannelClosed => "Failed to send initial snapshot"@,
            },
    {
        match self {
            SubscribeError::UnknownClient => String::from_str("Unknown client"),
            SubscribeError::ChannelClosed => String::from_str("Failed to send initial snapshot"),
        }
    }
}

/// Executable form of [`derived_stream_id`].
pub fn derive_stream_id(symbol: &str, data_type: DataType, max_levels: u32) -> (stream_id: String)
    ensures
        stream_id@ == derived_stream_id(symbol@, data_type, max_levels),
{
    let mut stream_id = String::from_str(symbol);
    stream_id.append("_");
    match data_type {
        DataType::MBO => stream_id.append("MBO"),
        DataType::MBP => stream_id.append("MBP"),
    }
    stream_id.append("_");
    push_decimal(&mut stream_id, max_levels as u128);
    stream_id
}

/// Executable form of [`subscribe_reply`].
pub fn reply_to_subscribe(
    outcome: Result<(), SubscribeError>,
    stream_id: String,
    symbol: String,
    data_type: DataType,
) -> (reply: ServerMessage)
    ensures
        reply@ == subscribe_reply(outcome, stream_id@, symbol@, data_type),
{
    match outcome {
        Ok(()) => ServerMessage::Subscribed { stream_id, symbol, data_type },
        Err(SubscribeError::UnknownClient) => ServerMessage::Error {
            code: 500,
            message: String::from_str("Subscription failed: Unknown client"),
            stream_id: Some(stream_id),
        },
        Err(SubscribeError::ChannelClosed) => ServerMessage::Error {
            code: 500,
            message: String::from_str("Subscription failed: Failed to send initial snapshot"),
            stream_id: Some(stream_id),
        },
    }
}

/// Executable form of [`unsubscribe_reply`].
pub fn reply_to_unsubscribe(found: bool, stream_id: String) -> (reply: ServerMessage)
    ensures
        reply@ == unsubscribe_reply(found, stream_id@),
{
    if found {
        ServerMessage::Unsubscribed { stream_id }
    } else {
        ServerMessage::Error {
            code: 404,
            message: String::from_str("Stream not found"),
            stream_id: Some(stream_id),
        }
    }
}

/// What a client is answered whose message could not be read, with the
/// reason.
pub fn reply_to_invalid(reason: &str) -> (reply: ServerMessage)
    ensures
        reply@ == (ServerMessageView::Error {
            code: 400,
            message: "Invalid message: "@ + reason@,
            stream_id: None,
        }),
{
    let mut message = String::from_str("Invalid message: ");
    message.append(reason);
    ServerMessage::Error { code: 400, message, stream_id: None }
}

/// Ends the subscriptions of `client` under `stream_id` among the
/// subscriptions to one symbol. Returns whether there was one.
fn drop_stream(subscriptions: &mut Vec<Subscription>, client: ClientId, stream_id: &str) -> (dropped:
    bool)
    ensures
        subscription_views(final(subscriptions)@) == without_stream(
            subscription_views(old(subscriptions)@),
            client,
            stream_id@,
        ),
        dropped == holds_stream(subscription_views(old(subscriptions)@), client, stream_id@),
{
    let ghost before = subscription_views(subscriptions@);
    let ghost keep = not_stream(client, stream_id@);
    let ghost mut seen: int = 0;
    let mut dropped = false;
    let mut i: usize = 0;
    proof {
        reveal(Seq::filter);
        assert(before.take(0).filter(keep) + before.skip(0) =~= before);
    }
    while i < subscriptions.len()
        invariant
            keep == not_stream(client, stream_id@),
            0 <= seen <= before.len(),
            i == before.take(seen).filter(keep).len(),
            subscription_views(subscriptions@) == before.take(seen).filter(keep) + before.skip(
                seen,
            ),
            dropped == holds_stream(before.take(seen), client, stream_id@),
        decreases subscriptions.len() - i,
    {
        let ghost now = subscription_views(subscriptions@);
        proof {
            assert(now[i as int] == before.skip(seen)[0]);
            assert(now[i as int] == before[seen]);
            assert(subscriptions[i as int]@ == before[seen]);
            assert(now.len() == i + before.len() - seen);
            lemma_filter_take_step(before, keep, seen);
            assert(before.take(seen + 1).take(seen) =~= before.take(seen));
            assert(holds_stream(before.take(seen + 1), client, stream_id@) == (holds_stream(
                before.take(seen),
                client,
                stream_id@,
            ) || is_stream(before[seen], client, stream_id@))) by {
                let longer = before.take(seen + 1);
                let shorter = before.take(seen);
                if holds_stream(longer, client, stream_id@) {
                    let k = choose|k: int|
                        0 <= k < longer.len() && is_stream(#[trigger] longer[k], client, stream_id@);
                    if k < seen {
                        assert(shorter[k] == longer[k]);
                    }
                }
                if holds_stream(shorter, client, stream_id@) {
                    let k = choose|k: int|
                        0 <= k < shorter.len() && is_stream(
                            #[trigger] shorter[k],
                            client,
                            stream_id@,
                        );
                    assert(longer[k] == shorter[k]);
                }
                if is_stream(before[seen], client, stream_id@) {
                    assert(longer[seen] == before[seen]);
                }
            }
        }
        if subscriptions[i].client_id == client && subscriptions[i].stream_id.as_str().eq(
            stream_id,
        ) {
            subscriptions.remove(i);
            dropped = true;
            proof {
                assert(!keep(before[seen]));
                let kept = before.take(seen).filter(keep);
                assert(now == kept + before.skip(seen));
                assert(subscription_views(subscriptions@) =~= now.remove(i as int));
                assert(now.remove(i as int) =~= before.take(seen + 1).filter(keep) + before.skip(
                    seen + 1,
                ));
            }
        } else {
            proof {
                assert(keep(before[seen]));
                let kept = before.take(seen).filter(keep);
                assert(now == kept + before.skip(seen));
                assert(now =~= kept.push(before[seen]) + before.skip(seen + 1));
            }
            i += 1;
        }
        proof {
            seen = seen + 1;
        }
    }
    proof {
        assert(seen == before.len()) by {
            assert(subscription_views(subscriptions@).len() == i + before.len() - seen);
        }
        assert(before.take(seen) =~= before);
        assert(before.filter(keep) + before.skip(seen) =~= before.filter(keep));
    }
    dropped
}

/// Takes every occurrence of a text out of a list of texts.
fn drop_text(texts: &mut Vec<String>, text: &str)
    ensures
        text_views(final(texts)@) == without_text(text_views(old(texts)@), text@),
{
    let ghost before = text_views(texts@);
    let ghost keep = not_text(text@);
    let ghost mut seen: int = 0;
    let mut i: usize = 0;
    proof {
        reveal(Seq::filter);
        assert(before.take(0).filter(keep) + before.skip(0) =~= before);
    }
    while i < texts.len()
        invariant
            keep == not_text(text@),
            0 <= seen <= before.len(),
            i == before.take(seen).filter(keep).len(),
            text_views(texts@) == before.take(seen).filter(keep) + before.skip(seen),
        decreases texts.len() - i,
    {
        let ghost now = text_views(texts@);
        proof {
            assert(now[i as int] == before.skip(seen)[0]);
            assert(now[i as int] == before[seen]);
            assert(texts[i as int]@ == before[seen]);
            assert(now.len() == i + before.len() - seen);
            lemma_filter_take_step(before, keep, seen);
        }
        if texts[i].as_str().eq(text) {
            texts.remove(i);
            proof {
                assert(!keep(before[seen]));
                let kept = before.take(seen).filter(keep);
                assert(now == kept + before.skip(seen));
                assert(text_views(texts@) =~= now.remove(i as int));
                assert(now.remove(i as int) =~= before.take(seen + 1).filter(keep) + before.skip(
                    seen + 1,
                ));
            }
        } else {
            proof {
                assert(keep(before[seen]));
                let kept = before.take(seen).filter(keep);
                assert(now == kept + before.skip(seen));
                assert(now =~= kept.push(before[seen]) + before.skip(seen + 1));
            }
            i += 1;
        }
        proof {
            seen = seen + 1;
        }
    }
    proof {
        assert(seen == before.len()) by {
            assert(text_views(texts@).len() == i + before.len() - seen);
        }
        assert(before.take(seen) =~= before);
        assert(before.filter(keep) + before.skip(seen) =~= before.filter(keep));
    }
}

/// Ends the subscriptions of `client` under `stream_id` to every symbol.
/// Returns whether there was one.
fn drop_stream_everywhere(symbols: &mut Vec<SymbolSlot>, client: ClientId, stream_id: &str) -> (dropped:
    bool)
    ensures
        final(symbols).len() == old(symbols).len(),
        forall|i: int|
            0 <= i < old(symbols).len() ==> {
                &&& (#[trigger] final(symbols)[i]).book == old(symbols)[i].book
                &&& subscription_views(final(symbols)[i].subscriptions@) == without_stream(
                    subscription_views(old(symbols)[i].subscriptions@),
                    client,
                    stream_id@,
                )
            },
        dropped == exists|i: int|
            0 <= i < old(symbols).len() && holds_stream(
                subscription_views((#[trigger] old(symbols)[i]).subscriptions@),
                client,
                stream_id@,
            ),
{
    let mut dropped = false;
    let mut i: usize = 0;
    while i < symbols.len()
        invariant
            i <= symbols.len(),
            symbols.len() == old(symbols).len(),
            forall|j: int| i <= j < symbols.len() ==> (#[trigger] symbols[j]) == old(symbols)[j],
            forall|j: int|
                0 <= j < i ==> {
                    &&& (#[trigger] symbols[j]).book == old(symbols)[j].book
                    &&& subscription_views(symbols[j].subscriptions@) == without_stream(
                        subscription_views(old(symbols)[j].subscriptions@),
                        client,
                        stream_id@,
                    )
                },
            dropped == exists|j: int|
                0 <= j < i && holds_stream(
                    subscription_views((#[trigger] old(symbols)[j]).subscriptions@),
                    client,
                    stream_id@,
                ),
        decreases symbols.len() - i,
    {
        let here = drop_stream(&mut symbols[i].subscriptions, client, stream_id);
        proof {
            if here {
                assert(holds_stream(
                    subscription_views(old(symbols)[i as int].subscriptions@),
                    client,
                    stream_id@,
                ));
            }
        }
        dropped = dropped || here;
        i += 1;
    }
    dropped
}

impl StreamManager {
    /// The symbol index holds each symbol's place, and nothing else.
    pub(crate) open spec fn symbols_indexed(&self) -> bool {
        let slots = symbol_slots(self.symbol_index);
        &&& forall|i: int|
            0 <= i < self.symbols.len() ==> slots.dom().contains(
                (#[trigger] self.symbols[i]).book@.symbol,
            ) && slots[self.symbols[i].book@.symbol] == i
        &&& forall|symbol: Seq<char>| #[trigger]
            slots.dom().contains(symbol) ==> slots[symbol] < self.symbols.len()
                && self.symbols[slots[symbol] as int].book@.symbol == symbol
    }

    /// The client index holds each client's place, and nothing else.
    pub(crate) open spec fn clients_indexed(&self) -> bool {
        let slots = client_slots(self.client_index);
        &&& forall|j: int|
            0 <= j < self.clients.len() ==> slots.dom().contains((#[trigger] self.clients[j]).id)
                && slots[self.clients[j].id] == j
        &&& forall|client: ClientId| #[trigger]
            slots.dom().contains(client) ==> slots[client] < self.clients.len()
                && self.clients[slots[client] as int].id == client
    }

    /// Every book is well formed.
    pub(crate) open spec fn books_wf(&self) -> bool {
        forall|i: int| 0 <= i < self.symbols.len() ==> (#[trigger] self.symbols[i]).book.wf()
    }

    /// The registry's invariant: the indexes hold the places of the symbols
    /// and of the clients, every book is well formed, and the registry's
    /// value is consistent.
    pub closed spec fn wf(&self) -> bool {
        &&& self.symbols_indexed()
        &&& self.clients_indexed()
        &&& self.books_wf()
        &&& self@.consistent()
    }

    /// What the invariant says.
    pub(crate) proof fn lemma_unfold(&self)
        requires
            self.wf(),
        ensures
            self.symbols_indexed(),
            self.clients_indexed(),
            self.books_wf(),
            self@.consistent(),
            self@.symbols == self.symbols@.map_values(|s: SymbolSlot| slot_view(s)),
            forall|client: ClientId|
                self@.clients.dom().contains(client) == client_slots(
                    self.client_index,
                ).dom().contains(client),
            forall|j: int|
                0 <= j < self.clients.len() ==> self@.clients.dom().contains(
                    (#[trigger] self.clients[j]).id,
                ) && self@.clients[self.clients[j].id] == client_view(self.clients[j]),
    {
    }

    /// A well-formed registry has a consistent value.
    pub proof fn lemma_consistent(&self)
        requires
            self.wf(),
        ensures
            self@.consistent(),
    {
    }

    /// A registry without symbols and without clients.
    pub fn new() -> (manager: StreamManager)
        ensures
            manager.wf(),
            manager@.symbols.len() == 0,
            manager@.clients == Map::<ClientId, ClientView>::empty(),
    {
        let manager = StreamManager {
            symbol_index: symbol_index_new(),
            symbols: Vec::new(),
            client_index: client_index_new(),
            clients: Vec::new(),
        };
        assert(manager@.clients =~= Map::<ClientId, ClientView>::empty());
        manager
    }

    /// The place of a symbol, if it has been seen.
    pub(crate) fn find_symbol(&self, symbol: &str) -> (found: Option<usize>)
        requires
            self.wf(),
        ensures
            match found {
                Some(i) => i < self@.symbols.len() && self@.symbols[i as int].symbol() == symbol@,
                None => !self@.knows(symbol@),
            },
    {
        let found = symbol_index_get(&self.symbol_index, symbol);
        proof {
            if found is None && self@.knows(symbol@) {
                let i = choose|i: int|
                    0 <= i < self@.symbols.len() && (#[trigger] self@.symbols[i]).symbol()
                        == symbol@;
                assert(self.symbols[i].book@.symbol == symbol@);
            }
        }
        found
    }

    /// The place of a client, if it is connected.
    pub(crate) fn find_client(&self, client: ClientId) -> (found: Option<usize>)
        requires
            self.wf(),
        ensures
            match found {
                Some(j) => j < self.clients.len() && self.clients[j as int].id == client
                    && self@.clients.dom().contains(client),
                None => !self@.clients.dom().contains(client),
            },
    {
        client_index_get(&self.client_index, client)
    }

    /// Whether a client is connected.
    pub fn is_registered(&self, client_id: ClientId) -> (registered: bool)
        requires
            self.wf(),
        ensures
            registered == self@.clients.dom().contains(client_id),
    {
        self.find_client(client_id).is_some()
    }

    /// The symbols seen so far, in the order they were first seen.
    pub fn get_symbols(&self) -> (symbols: Vec<String>)
        requires
            self.wf(),
        ensures
            text_views(symbols@) == self@.symbols.map_values(|s: SymbolView| s.symbol()),
    {
        let mut symbols: Vec<String> = Vec::new();
        let mut i: usize = 0;
        while i < self.symbols.len()
            invariant
                i <= self.symbols.len(),
                text_views(symbols@) == self@.symbols.take(i as int).map_values(
                    |s: SymbolView| s.symbol(),
                ),
            decreases self.symbols.len() - i,
        {
            let ghost named = text_views(symbols@);
            symbols.push(self.symbols[i].book.symbol.clone());
            proof {
                self.symbols[i as int].book.lemma_symbol();
                assert(text_views(symbols@) =~= named.push(self@.symbols[i as int].symbol()));
                assert(self@.symbols.take(i + 1).map_values(|s: SymbolView| s.symbol())
                    =~= named.push(self@.symbols[i as int].symbol()));
            }
            i += 1;
        }
        assert(self@.symbols.take(i as int) =~= self@.symbols);
        symbols
    }

    /// Connects a client: from now on `sender` is its queue, and it owns no
    /// stream ids yet. For a client that is connected already, the queue
    /// given takes the place of the one it had, which is dropped, and the
    /// client keeps its subscriptions.
    pub fn register_client(&mut self, client_id: ClientId, sender: ClientSender)
        requires
            old(self).wf(),
        ensures
            final(self).wf(),
            final(self)@ == old(self)@.register(client_id, sender),
    {
        let ghost wanted = self@.register(client_id, sender);
        match self.find_client(client_id) {
            Some(j) => {
                self.clients[j].sender = sender;
                proof {
                    assert(client_view(self.clients[j as int]) == wanted.clients[client_id]);
                    assert(self@.clients =~= wanted.clients);
                }
            },
            None => {
                let place = self.clients.len();
                self.clients.push(ClientSlot { id: client_id, sender, streams: Vec::new() });
                client_index_insert(&mut self.client_index, client_id, place);
                proof {
                    assert(text_views(Seq::<String>::empty()) =~= Seq::<Seq<char>>::empty());
                    assert(client_view(self.clients[place as int]) == wanted.clients[client_id]);
                    assert(self@.clients =~= wanted.clients);
                }
            },
        }
    }

    /// Ends the subscriptions of `client_id` under `stream_id`, to whichever
    /// symbols they are, and takes the stream id from the ids the client
    /// owns. Returns whether there was such a subscription. The books stay.
    pub fn unsubscribe(&mut self, client_id: ClientId, stream_id: &str) -> (found: bool)
        requires
            old(self).wf(),
        ensures
            final(self).wf(),
            final(self)@ == old(self)@.unsubscribe(client_id, stream_id@),
            found == old(self)@.has_stream(client_id, stream_id@),
    {
        proof {
            self.lemma_unfold();
        }
        let found = drop_stream_everywhere(&mut self.symbols, client_id, stream_id);
        match client_index_get(&self.client_index, client_id) {
            Some(j) => {
                drop_text(&mut self.clients[j].streams, stream_id);
            },
            None => {},
        }
        proof {
            let before = old(self)@;
            let wanted = before.unsubscribe(client_id, stream_id@);
            assert forall|i: int| 0 <= i < self.symbols.len() implies slot_view(
                #[trigger] self.symbols[i],
            ) == wanted.symbols[i] by {
                assert(self.symbols[i].book == old(self).symbols[i].book);
            }
            assert(self@.symbols =~= wanted.symbols);
            assert(self@.clients =~= wanted.clients);
            lemma_unsubscribe_consistent(before, client_id, stream_id@);
            assert(self.symbols_indexed()) by {
                assert forall|i: int| 0 <= i < self.symbols.len() implies (
                #[trigger] self.symbols[i]).book == old(self).symbols[i].book by {}
            }
            assert(found == before.has_stream(client_id, stream_id@)) by {
                if before.has_stream(client_id, stream_id@) {
                    let (i, k) = choose|i: int, k: int|
                        0 <= i < before.symbols.len() && 0 <= k
                            < before.symbols[i].subscriptions.len() && is_stream(
                            #[trigger] before.symbols[i].subscriptions[k],
                            client_id,
                            stream_id@,
                        );
                    assert(holds_stream(
                        subscription_views(old(self).symbols[i].subscriptions@),
                        client_id,
                        stream_id@,
                    )) by {
                        assert(is_stream(
                            subscription_views(old(self).symbols[i].subscriptions@)[k],
                            client_id,
                            stream_id@,
                        ));
                    }
                }
                if found {
                    let i = choose|i: int|
                        0 <= i < old(self).symbols.len() && holds_stream(
                            subscription_views((#[trigger] old(self).symbols[i]).subscriptions@),
                            client_id,
                            stream_id@,
                        );
                    let subs = subscription_views(old(self).symbols[i].subscriptions@);
                    let k = choose|k: int|
                        0 <= k < subs.len() && is_stream(#[trigger] subs[k], client_id, stream_id@);
                    assert(before.symbols[i].subscriptions[k] == subs[k]);
                }
            }
        }
        found
    }

    /// Disconnects a client: every subscription under a stream id that it
    /// owns is ended, then its queue is dropped and it is forgotten. A
    /// client that is not connected is left alone, so the call may be
    /// repeated.
    pub fn unregister_client(&mut self, client_id: &ClientId)
        requires
            old(self).wf(),
        ensures
            final(self).wf(),
            final(self)@ == old(self)@.unregister(*client_id),
    {
        let client = *client_id;
        proof {
            self.lemma_unfold();
        }
        match self.find_client(client) {
            None => {
                proof {
                    lemma_unregister_unknown(self@, client);
                }
            },
            Some(j) => {
                let ghost before = self@;
                let ghost owned = text_views(self.clients[j as int].streams@);
                let mut k: usize = 0;
                proof {
                    assert forall|i: int| 0 <= i < self.symbols.len() implies subscription_views(
                        (#[trigger] self.symbols[i]).subscriptions@,
                    ) == subscription_views(old(self).symbols[i].subscriptions@).filter(
                        not_owned(client, owned.take(0)),
                    ) by {
                        lemma_filter_keeps_all(
                            subscription_views(old(self).symbols[i].subscriptions@),
                            not_owned(client, owned.take(0)),
                        );
                    }
                }
                while k < self.clients[j].streams.len()
                    invariant
                        j < self.clients.len(),
                        self.clients == old(self).clients,
                        self.client_index == old(self).client_index,
                        self.symbol_index == old(self).symbol_index,
                        owned == text_views(self.clients[j as int].streams@),
                        k <= self.clients[j as int].streams.len(),
                        self.symbols.len() == old(self).symbols.len(),
                        forall|i: int|
                            0 <= i < self.symbols.len() ==> {
                                &&& (#[trigger] self.symbols[i]).book == old(self).symbols[i].book
                                &&& subscription_views(self.symbols[i].subscriptions@)
                                    == subscription_views(
                                    old(self).symbols[i].subscriptions@,
                                ).filter(not_owned(client, owned.take(k as int)))
                            },
                    decreases self.clients[j as int].streams.len() - k,
                {
                    let ghost held = self.symbols@;
                    drop_stream_everywhere(
                        &mut self.symbols,
                        client,
                        self.clients[j].streams[k].as_str(),
                    );
                    proof {
                        let stream_id = owned[k as int];
                        let shorter = owned.take(k as int);
                        let longer = owned.take(k + 1);
                        assert forall|a: SubscriptionView| #[trigger]
                            not_owned(client, longer)(a) == (not_owned(client, shorter)(a)
                                && not_stream(client, stream_id)(a)) by {
                            if longer.contains(a.stream_id) {
                                let n = choose|n: int|
                                    0 <= n < longer.len() && longer[n] == a.stream_id;
                                if n < k {
                                    assert(shorter[n] == a.stream_id);
                                }
                            }
                            if shorter.contains(a.stream_id) {
                                let n = choose|n: int|
                                    0 <= n < shorter.len() && shorter[n] == a.stream_id;
                                assert(longer[n] == a.stream_id);
                            }
                            if a.stream_id == stream_id {
                                assert(longer[k as int] == a.stream_id);
                            }
                        }
                        assert forall|i: int| 0 <= i < self.symbols.len() implies {
                            &&& (#[trigger] self.symbols[i]).book == old(self).symbols[i].book
                            &&& subscription_views(self.symbols[i].subscriptions@)
                                == subscription_views(old(self).symbols[i].subscriptions@).filter(
                                not_owned(client, longer),
                            )
                        } by {
                            assert(held[i].book == old(self).symbols[i].book);
                            lemma_filter_twice(
                                subscription_views(old(self).symbols[i].subscriptions@),
                                not_owned(client, shorter),
                                not_stream(client, stream_id),
                                not_owned(client, longer),
                            );
                        }
                    }
                    k += 1;
                }
                let last = self.clients.len() - 1;
                let _ = self.clients.swap_remove(j);
                client_index_remove(&mut self.client_index, client);
                if j < last {
                    client_index_insert(&mut self.client_index, self.clients[j].id, j);
                }
                proof {
                    let wanted = before.unregister(client);
                    assert(owned.take(k as int) =~= owned);
                    assert(before.clients[client].streams == owned);
                    assert forall|i: int| 0 <= i < self.symbols.len() implies slot_view(
                        #[trigger] self.symbols[i],
                    ) == wanted.symbols[i] by {
                        let all = subscription_views(old(self).symbols[i].subscriptions@);
                        assert forall|m: int| 0 <= m < all.len() implies not_owned(client, owned)(
                            #[trigger] all[m],
                        ) == not_client(client)(all[m]) by {
                            assert(before.symbols[i].subscriptions[m] == all[m]);
                        }
                        lemma_filter_same(all, not_owned(client, owned), not_client(client));
                    }
                    assert(self@.symbols =~= wanted.symbols);
                    let slots = client_slots(old(self).client_index);
                    assert(slots[client] == j);
                    assert forall|x: ClientId| #[trigger]
                        wanted.clients.dom().contains(x) implies self@.clients.dom().contains(x)
                        && self@.clients[x] == wanted.clients[x] by {
                        assert(slots.dom().contains(x));
                        let place = slots[x] as int;
                        assert(old(self).clients[place].id == x);
                        if place == last {
                            assert(self.clients[j as int] == old(self).clients[place]);
                        } else {
                            assert(self.clients[place] == old(self).clients[place]);
                        }
                    }
                    assert(self@.clients =~= wanted.clients);
                    lemma_unregister_consistent(before, client);
                    assert(self.symbols_indexed());
                    assert(self.clients_indexed()) by {
                        let after = client_slots(self.client_index);
                        assert forall|m: int| 0 <= m < self.clients.len() implies after.dom().contains(
                            (#[trigger] self.clients[m]).id,
                        ) && after[self.clients[m].id] == m by {
                            if m == j {
                                assert(self.clients[m] == old(self).clients[last as int]);
                            } else {
                                assert(self.clients[m] == old(self).clients[m]);
                            }
                        }
                        assert forall|x: ClientId| #[trigger]
                            after.dom().contains(x) implies after[x] < self.clients.len()
                            && self.clients[after[x] as int].id == x by {
                            assert(slots.dom().contains(x));
                            let place = slots[x] as int;
                            assert(old(self).clients[place].id == x);
                            if place == last {
                                assert(self.clients[j as int] == old(self).clients[place]);
                            } else {
                                assert(self.clients[place] == old(self).clients[place]);
                            }
                        }
                    }
                }
            },
        }
    }

    /// Sees to it that a symbol has a book: a symbol not seen before gets a
    /// fresh book, seeded, behind the books of the others. Returns the
    /// symbol's place.
    pub fn initialize_symbol(&mut self, symbol: &str) -> (place: usize)
        requires
            old(self).wf(),
        ensures
            final(self).wf(),
            old(self)@.sees(final(self)@, symbol@),
            final(self)@.knows(symbol@),
            place == final(self)@.place_of(symbol@),
            place < final(self)@.symbols.len(),
    {
        proof {
            self.lemma_unfold();
        }
        match self.find_symbol(symbol) {
            Some(place) => {
                proof {
                    lemma_place_of(self@, place as int);
                }
                place
            },
            None => {
                let place = self.symbols.len();
                let book = OrderBook::sample(String::from_str(symbol));
                let ghost fresh = book@;
                self.symbols.push(SymbolSlot { book, subscriptions: Vec::new() });
                symbol_index_insert(&mut self.symbol_index, String::from_str(symbol), place);
                proof {
                    let before = old(self)@;
                    assert(self@.clients =~= before.clients);
                    assert(self@.symbols.drop_last() =~= before.symbols);
                    assert(self@.symbols.last().subscriptions =~= Seq::<SubscriptionView>::empty());
                    assert(self@.symbols[place as int].symbol() == symbol@);
                    assert forall|i: int, j: int| 0 <= i < j < self@.symbols.len() implies (
                    #[trigger] self@.symbols[i]).symbol() != (
                    #[trigger] self@.symbols[j]).symbol() by {
                        assert(self@.symbols[i] == before.symbols[i]);
                        if j < place {
                            assert(self@.symbols[j] == before.symbols[j]);
                        }
                    }
                    assert(self@.consistent()) by {
                        assert forall|i: int, k: int|
                            0 <= i < self@.symbols.len() && 0 <= k
                                < self@.symbols[i].subscriptions.len() implies {
                            let held = #[trigger] self@.symbols[i].subscriptions[k];
                            &&& held.symbol == self@.symbols[i].symbol()
                            &&& self@.clients.dom().contains(held.client_id)
                            &&& self@.clients[held.client_id].streams.contains(held.stream_id)
                        } by {
                            assert(self@.symbols[i] == before.symbols[i]);
                            assert(before.symbols[i].subscriptions[k]
                                == self@.symbols[i].subscriptions[k]);
                        }
                    }
                    assert(self.symbols_indexed()) by {
                        let slots = symbol_slots(self.symbol_index);
                        assert forall|i: int| 0 <= i < self.symbols.len() implies slots.dom().contains(
                            (#[trigger] self.symbols[i]).book@.symbol,
                        ) && slots[self.symbols[i].book@.symbol] == i by {
                            if i < place {
                                assert(self.symbols[i] == old(self).symbols[i]);
                                assert(before.symbols[i].symbol() != symbol@);
                            }
                        }
                    }
                    assert(self.books_wf()) by {
                        assert forall|i: int| 0 <= i < self.symbols.len() implies (
                        #[trigger] self.symbols[i]).book.wf() by {
                            if i < place {
                                assert(self.symbols[i] == old(self).symbols[i]);
                            }
                        }
                    }
                    lemma_place_of(self@, place as int);
                }
                place
            },
        }
    }

    /// The snapshot of the book at `place` for a subscription, at `now`.
    pub(crate) fn snapshot(&self, place: usize, subscription: &Subscription, now: i64) -> (message:
        ServerMessage)
        requires
            self.wf(),
            place < self@.symbols.len(),
        ensures
            is_snapshot(message@, self@.symbols[place as int].book, subscription@, now),
    {
        proof {
            self.lemma_unfold();
        }
        let book = &self.symbols[place].book;
        proof {
            book.lemma_symbol();
        }
        ServerMessage::MarketData {
            stream_id: subscription.stream_id.clone(),
            symbol: book.symbol.clone(),
            data: book.market_data_at(subscription.data_type, subscription.max_levels, now),
            sequence: book.get_sequence(),
            timestamp: now,
        }
    }

    /// Makes a subscription for a connected client and returns the snapshot
    /// that the client is owed at once: the view of the symbol's book at
    /// `now`. A symbol not seen before gets its book first. For a client
    /// that is not connected nothing is done.
    pub fn add_subscription(
        &mut self,
        client_id: ClientId,
        stream_id: String,
        symbol: String,
        data_type: DataType,
        max_levels: Option<u32>,
        now: i64,
    ) -> (outcome: Result<ServerMessage, SubscribeError>)
        requires
            old(self).wf(),
        ensures
            final(self).wf(),
            match outcome {
                Ok(message) => {
                    let subscription = SubscriptionView {
                        stream_id: stream_id@,
                        symbol: symbol@,
                        data_type,
                        max_levels: levels_or_default(max_levels),
                        client_id,
                    };
                    &&& old(self)@.clients.dom().contains(client_id)
                    &&& final(self)@.clients.dom().contains(client_id)
                    &&& old(self)@.subscribes(final(self)@, subscription)
                    &&& final(self)@.knows(symbol@)
                    &&& is_snapshot(
                        message@,
                        final(self)@.symbols[final(self)@.place_of(symbol@)].book,
                        subscription,
                        now,
                    )
                },
                Err(error) => {
                    &&& error == SubscribeError::UnknownClient
                    &&& !old(self)@.clients.dom().contains(client_id)
                    &&& final(self)@ == old(self)@
                },
            },
    {
        match self.find_client(client_id) {
            None => Err(SubscribeError::UnknownClient),
            Some(_) => {
                let place = self.initialize_symbol(symbol.as_str());
                let ghost seen = self@;
                proof {
                    self.lemma_unfold();
                }
                let owner = match client_index_get(&self.client_index, client_id) {
                    Some(j) => j,
                    None => 0,
                };
                let subscription = Subscription::new(
                    stream_id.clone(),
                    symbol,
                    data_type,
                    max_levels,
                    client_id,
                );
                let ghost made = subscription@;
                let message = self.snapshot(place, &subscription, now);
                self.symbols[place].subscriptions.push(subscription);
                self.clients[owner].streams.push(stream_id);
                proof {
                    let wanted = seen.subscribe(made);
                    assert forall|i: int| 0 <= i < self.symbols.len() implies slot_view(
                        #[trigger] self.symbols[i],
                    ) == wanted.symbols[i] by {
                        if i == place {
                            assert(slot_view(self.symbols[i]).subscriptions
                                =~= seen.symbols[i].subscriptions.push(made));
                        }
                    }
                    assert(self@.symbols =~= wanted.symbols);
                    let owned = text_views(self.clients[owner as int].streams@);
                    assert(owned =~= seen.clients[client_id].streams.push(made.stream_id));
                    assert(client_view(self.clients[owner as int]) == wanted.clients[client_id]);
                    assert(self@.clients =~= wanted.clients);
                    lemma_subscribe_consistent(seen, made);
                    assert(self.symbols_indexed());
                    assert(self.clients_indexed());
                    assert(self.books_wf());
                    assert(self@.symbols[place as int].book == seen.symbols[place as int].book);
                    lemma_place_of(self@, place as int);
                }
                Ok(message)
            },
        }
    }

    /// Makes a subscription for a connected client and puts the first
    /// snapshot in its queue, so that it need not wait for the next tick. A
    /// symbol not seen before gets its book first.
    ///
    /// Fails for a client that is not connected, with nothing done, and
    /// where the queue does not take the snapshot; the subscription is made
    /// all the same then, and goes when the client is disconnected.
    pub fn subscribe(
        &mut self,
        client_id: ClientId,
        stream_id: String,
        symbol: String,
        data_type: DataType,
        max_levels: Option<u32>,
    ) -> (outcome: Result<(), SubscribeError>)
        requires
            old(self).wf(),
        ensures
            final(self).wf(),
            match outcome {
                Err(SubscribeError::UnknownClient) => {
                    &&& !old(self)@.clients.dom().contains(client_id)
                    &&& final(self)@ == old(self)@
                },
                _ => {
                    &&& old(self)@.clients.dom().contains(client_id)
                    &&& final(self)@.clients.dom().contains(client_id)
                    &&& final(self)@.knows(symbol@)
                    &&& old(self)@.subscribes(
                        final(self)@,
                        SubscriptionView {
                            stream_id: stream_id@,
                            symbol: symbol@,
                            data_type,
                            max_levels: levels_or_default(max_levels),
                            client_id,
                        },
                    )
                },
            },
    {
        let now = now_millis();
        match self.add_subscription(client_id, stream_id, symbol, data_type, max_levels, now) {
            Err(error) => Err(error),
            Ok(message) => {
                if self.send_to(client_id, message) {
                    Ok(())
                } else {
                    Err(SubscribeError::ChannelClosed)
                }
            },
        }
    }

    /// Puts a message in the queue of a client. Returns whether the queue
    /// took it: it does not for a client that is not connected, nor where
    /// the receiving half of the queue is closed.
    pub fn send_to(&self, client_id: ClientId, message: ServerMessage) -> (taken: bool)
        requires
            self.wf(),
        ensures
            taken ==> self@.clients.dom().contains(client_id),
    {
        match self.get_client_sender(&client_id) {
            Some(queue) => push(queue, message),
            None => false,
        }
    }

    /// The sending half of the queue of a client, if it is connected: the
    /// one that the client was last registered with.
    pub fn get_client_sender(&self, client_id: &ClientId) -> (sender: Option<&ClientSender>)
        requires
            self.wf(),
        ensures
            match sender {
                Some(queue) => self@.clients.dom().contains(*client_id) && *queue
                    == self@.clients[*client_id].queue,
                None => !self@.clients.dom().contains(*client_id),
            },
    {
        match self.find_client(*client_id) {
            Some(j) => Some(&self.clients[j].sender),
            None => None,
        }
    }

    /// Makes a subscription for each stream definition, in turn, each under
    /// the stream id derived from it, and puts each one's first snapshot in
    /// the client's queue. Stops at the first failure.
    pub fn subscribe_to_streams(
        &mut self,
        client_id: ClientId,
        stream_definitions: Vec<(String, DataType, u32)>,
    ) -> (outcome: Result<(), SubscribeError>)
        requires
            old(self).wf(),
        ensures
            final(self).wf(),
            match outcome {
                Ok(()) => old(self)@.subscribes_all(
                    final(self)@,
                    derived_subscriptions(client_id, stream_definitions@),
                ),
                Err(SubscribeError::UnknownClient) => {
                    &&& !old(self)@.clients.dom().contains(client_id)
                    &&& final(self)@ == old(self)@
                },
                Err(SubscribeError::ChannelClosed) => exists|made: int|
                    0 < made <= stream_definitions.len() && #[trigger] old(self)@.subscribes_all(
                        final(self)@,
                        derived_subscriptions(client_id, stream_definitions@).take(made),
                    ),
            },
    {
        let ghost wanted = derived_subscriptions(client_id, stream_definitions@);
        let mut k: usize = 0;
        assert(wanted.take(0) =~= Seq::<SubscriptionView>::empty());
        while k < stream_definitions.len()
            invariant
                self.wf(),
                k <= stream_definitions.len(),
                wanted == derived_subscriptions(client_id, stream_definitions@),
                old(self)@.subscribes_all(self@, wanted.take(k as int)),
                k > 0 ==> self@.clients.dom().contains(client_id),
                k == 0 ==> self@ == old(self)@,
            decreases stream_definitions.len() - k,
        {
            let ghost before = self@;
            let definition = &stream_definitions[k];
            let stream_id = derive_stream_id(definition.0.as_str(), definition.1, definition.2);
            let outcome = self.subscribe(
                client_id,
                stream_id,
                definition.0.clone(),
                definition.1,
                Some(definition.2),
            );
            proof {
                if outcome != Err::<(), SubscribeError>(SubscribeError::UnknownClient) {
                    assert(wanted.take(k + 1).drop_last() =~= wanted.take(k as int));
                    assert(wanted.take(k + 1).last() == wanted[k as int]);
                    assert(old(self)@.subscribes_all(before, wanted.take(k + 1).drop_last()));
                    assert(before.subscribes(self@, wanted.take(k + 1).last()));
                    assert(old(self)@.subscribes_all(self@, wanted.take(k + 1)));
                }
            }
            match outcome {
                Ok(()) => {},
                Err(error) => {
                    return Err(error);
                },
            }
            k += 1;
        }
        assert(wanted.take(k as int) =~= wanted);
        Ok(())
    }

    /// The view of a symbol's book at `now` that a data type and a number
    /// of levels ask for; nothing for a symbol that has not been seen.
    pub fn get_order_book_snapshot_at(
        &self,
        symbol: &str,
        data_type: DataType,
        max_levels: u32,
        now: i64,
    ) -> (snapshot: Option<MarketDataUpdate>)
        requires
            self.wf(),
        ensures
            match snapshot {
                Some(data) => self@.knows(symbol@) && is_market_data(
                    data@,
                    self@.symbols[self@.place_of(symbol@)].book,
                    data_type,
                    max_levels,
                    now,
                ),
                None => !self@.knows(symbol@),
            },
    {
        proof {
            self.lemma_unfold();
        }
        match self.find_symbol(symbol) {
            Some(place) => {
                proof {
                    lemma_place_of(self@, place as int);
                }
                Some(self.symbols[place].book.market_data_at(data_type, max_levels, now))
            },
            None => None,
        }
    }

    /// [`StreamManager::get_order_book_snapshot_at`] at the moment of the
    /// call.
    pub fn get_order_book_snapshot(
        &self,
        symbol: &str,
        data_type: DataType,
        max_levels: u32,
    ) -> (snapshot: Option<MarketDataUpdate>)
        requires
            self.wf(),
        ensures
            snapshot is Some == self@.knows(symbol@),
            snapshot is Some ==> exists|now: i64|
                now >= 0 && #[trigger] is_market_data(
                    snapshot->0@,
                    self@.symbols[self@.place_of(symbol@)].book,
                    data_type,
                    max_levels,
                    now,
                ),
    {
        let now = now_millis();
        self.get_order_book_snapshot_at(symbol, data_type, max_levels, now)
    }

    /// What a client is told when it has connected, given its identifier as
    /// text.
    pub fn connection_info(&self, client_text: String, now: i64) -> (message: ServerMessage)
        requires
            self.wf(),
        ensures
            is_connection_info(message@, self@, client_text@, now),
    {
        ServerMessage::ConnectionInfo {
            client_id: client_text,
            server_time: now,
            supported_symbols: self.get_symbols(),
        }
    }

    /// What a client is told when it has connected, at `now`: its
    /// identifier is written out as [`hyphenated`] has it.
    pub fn connection_info_for(&self, client_id: ClientId, now: i64) -> (message: ServerMessage)
        requires
            self.wf(),
        ensures
            is_connection_info(message@, self@, hyphenated(client_id), now),
    {
        self.connection_info(client_id_text(client_id), now)
    }

    /// Tells a client, once it has connected, its identifier, the server's
    /// time and the symbols seen so far. Returns whether the client's queue
    /// took the message; a failure needs no handling.
    pub fn send_connection_info(&self, client_id: ClientId) -> (taken: bool)
        requires
            self.wf(),
        ensures
            taken ==> self@.clients.dom().contains(client_id),
    {
        let now = now_millis();
        let message = self.connection_info_for(client_id, now);
        self.send_to(client_id, message)
    }

    /// The snapshots that the subscribers of the symbol at `place` are owed
    /// at `now`.
    pub fn snapshots_for(&self, place: usize, now: i64) -> (deliveries: Vec<Delivery>)
        requires
            self.wf(),
            place < self@.symbols.len(),
        ensures
            is_snapshots(delivery_views(deliveries@), self@.symbols[place as int], now),
    {
        proof {
            self.lemma_unfold();
        }
        let mut deliveries: Vec<Delivery> = Vec::new();
        let mut k: usize = 0;
        while k < self.symbols[place as usize].subscriptions.len()
            invariant
                self.wf(),
                place < self.symbols.len(),
                self@.symbols == self.symbols@.map_values(|s: SymbolSlot| slot_view(s)),
                k <= self.symbols[place as int].subscriptions.len(),
                deliveries.len() == k,
                forall|m: int|
                    0 <= m < k ==> {
                        &&& (#[trigger] delivery_views(deliveries@)[m]).client_id
                            == self@.symbols[place as int].subscriptions[m].client_id
                        &&& is_snapshot(
                            delivery_views(deliveries@)[m].message,
                            self@.symbols[place as int].book,
                            self@.symbols[place as int].subscriptions[m],
                            now,
                        )
                    },
            decreases self.symbols[place as int].subscriptions.len() - k,
        {
            let subscription = &self.symbols[place].subscriptions[k];
            let message = self.snapshot(place, subscription, now);
            let ghost before = delivery_views(deliveries@);
            deliveries.push(Delivery { client_id: subscription.client_id, message });
            proof {
                let after = delivery_views(deliveries@);
                assert forall|m: int| 0 <= m < k implies after[m] == before[m] by {}
                assert(after[k as int].client_id
                    == self@.symbols[place as int].subscriptions[k as int].client_id);
            }
            k += 1;
        }
        deliveries
    }

    /// The heartbeats that the connected clients are owed at `now`.
    pub fn heartbeats(&self, now: i64) -> (deliveries: Vec<Delivery>)
        requires
            self.wf(),
        ensures
            is_heartbeats(delivery_views(deliveries@), self@.clients, now),
            deliveries.len() == self.client_count(),
    {
        proof {
            self.lemma_unfold();
        }
        let mut deliveries: Vec<Delivery> = Vec::new();
        let mut j: usize = 0;
        while j < self.clients.len()
            invariant
                self.wf(),
                j <= self.clients.len(),
                deliveries.len() == j,
                forall|m: int|
                    0 <= m < j ==> {
                        &&& (#[trigger] delivery_views(deliveries@)[m]).message == (
                        ServerMessageView::HeartBeat { timestamp: now })
                        &&& delivery_views(deliveries@)[m].client_id == self.clients[m].id
                    },
            decreases self.clients.len() - j,
        {
            let ghost before = delivery_views(deliveries@);
            deliveries.push(
                Delivery {
                    client_id: self.clients[j].id,
                    message: ServerMessage::HeartBeat { timestamp: now },
                },
            );
            proof {
                let after = delivery_views(deliveries@);
                assert forall|m: int| 0 <= m < j implies after[m] == before[m] by {}
            }
            j += 1;
        }
        proof {
            let sent = delivery_views(deliveries@);
            let slots = client_slots(self.client_index);
            assert forall|m: int| 0 <= m < sent.len() implies self@.clients.dom().contains(
                (#[trigger] sent[m]).client_id,
            ) by {
                assert(self.clients[m].id == sent[m].client_id);
            }
            assert forall|a: int, b: int| 0 <= a < b < sent.len() implies (
            #[trigger] sent[a]).client_id != (#[trigger] sent[b]).client_id by {
                assert(slots[self.clients[a].id] == a);
                assert(slots[self.clients[b].id] == b);
            }
            assert forall|client: ClientId| #[trigger]
                self@.clients.dom().contains(client) implies exists|m: int|
                0 <= m < sent.len() && (#[trigger] sent[m]).client_id == client by {
                assert(slots.dom().contains(client));
                let m = slots[client] as int;
                assert(self.clients[m].id == client);
                assert(sent[m].client_id == client);
            }
        }
        deliveries
    }

    /// The number of connected clients.
    pub closed spec fn client_count(&self) -> nat {
        self.clients.len() as nat
    }

    /// The number of connected clients is the number of clients that the
    /// registry's value holds.
    pub proof fn lemma_client_count(&self)
        requires
            self.wf(),
        ensures
            self@.clients.dom().finite(),
            self@.clients.dom().len() == self.client_count(),
    {
        let ids = self.clients@.map_values(|slot: ClientSlot| slot.id);
        let slots = client_slots(self.client_index);
        assert(ids.no_duplicates()) by {
            assert forall|a: int, b: int| 0 <= a < ids.len() && 0 <= b < ids.len() && a
                != b implies ids[a] != ids[b] by {
                assert(slots[self.clients[a].id] == a);
                assert(slots[self.clients[b].id] == b);
            }
        }
        assert(self@.clients.dom() =~= ids.to_set()) by {
            assert forall|client: ClientId| self@.clients.dom().contains(client)
                == ids.to_set().contains(client) by {
                if self@.clients.dom().contains(client) {
                    assert(slots.dom().contains(client));
                    assert(ids[slots[client] as int] == client);
                }
                if ids.to_set().contains(client) {
                    let j = choose|j: int| 0 <= j < ids.len() && ids[j] == client;
                    assert(self.clients[j].id == client);
                }
            }
        }
        ids.unique_seq_to_set();
        vstd::seq_lib::seq_to_set_is_finite(ids);
    }

    /// Puts each message in the queue of its client, in order. Returns how
    /// many the queues took: no more than there are messages for connected
    /// clients. A queue that does not take its message, and a client that
    /// is not connected, do not keep the rest from being sent.
    pub fn dispatch(&self, deliveries: Vec<Delivery>) -> (taken: usize)
        requires
            self.wf(),
        ensures
            taken <= for_connected(delivery_views(deliveries@), self@.clients).len(),
            taken <= deliveries.len(),
    {
        let ghost all = delivery_views(deliveries@);
        let ghost clients = self@.clients;
        let mut taken: usize = 0;
        proof {
            reveal(Seq::filter);
            assert(all.take(0) =~= Seq::<DeliveryView>::empty());
            assert(all.len() == deliveries.len());
        }
        for delivery in it: deliveries
            invariant
                self.wf(),
                clients == self@.clients,
                all == delivery_views(it.seq()),
                all.len() <= usize::MAX,
                taken <= for_connected(all.take(it.index() as int), clients).len(),
                taken <= it.index(),
        {
            proof {
                lemma_filter_take_step(all, to_connected(clients), it.index() as int);
            }
            if self.send_to(delivery.client_id, delivery.message) {
                taken += 1;
            }
        }
        proof {
            assert(all.take(all.len() as int) =~= all);
        }
        taken
    }

    /// Puts a heartbeat in the queue of every connected client. Returns how
    /// many queues took theirs.
    pub fn send_heartbeats(&self) -> (taken: usize)
        requires
            self.wf(),
        ensures
            taken <= self.client_count(),
    {
        let now = now_millis();
        let deliveries = self.heartbeats(now);
        self.dispatch(deliveries)
    }

    /// Drives the book at `place` for one tick: between one and
    /// [`TICK_ACTIVITY_LIMIT`] random order events are generated and
    /// applied, and returned in that order. A book whose sequence number
    /// has no room for as many is left alone, and nothing is returned.
    pub fn simulate_symbol(&mut self, place: usize) -> (activities: Vec<OrderActivity>)
        requires
            old(self).wf(),
            place < old(self)@.symbols.len(),
        ensures
            final(self).wf(),
            final(self)@ == old(self)@.with_book(
                place as int,
                old(self)@.symbols[place as int].book.run(activity_views(activities@)),
            ),
            is_symbol_tick(
                old(self)@.symbols[place as int],
                final(self)@.symbols[place as int],
                activity_views(activities@),
            ),
    {
        proof {
            self.lemma_unfold();
        }
        let ghost before = self@;
        let ghost book = before.symbols[place as int].book;
        let activities = if self.symbols[place].book.get_sequence() <= u64::MAX
            - TICK_ACTIVITY_LIMIT {
            self.symbols[place].book.simulate_activity()
        } else {
            Vec::new()
        };
        proof {
            let events = activity_views(activities@);
            assert(events.len() == 0 ==> book.run(events) == book);
            lemma_run_symbol(book, events);
            let wanted = before.with_book(place as int, book.run(events));
            assert forall|i: int| 0 <= i < self.symbols.len() implies slot_view(
                #[trigger] self.symbols[i],
            ) == wanted.symbols[i] by {
                if i != place {
                    assert(self.symbols[i] == old(self).symbols[i]);
                }
            }
            assert(self@.symbols =~= wanted.symbols);
            assert(self@.clients =~= wanted.clients);
            assert(self.symbols_indexed()) by {
                let slots = symbol_slots(self.symbol_index);
                assert forall|i: int| 0 <= i < self.symbols.len() implies slots.dom().contains(
                    (#[trigger] self.symbols[i]).book@.symbol,
                ) && slots[self.symbols[i].book@.symbol] == i by {
                    assert(self.symbols[i].book@.symbol == old(self).symbols[i].book@.symbol);
                }
                assert forall|symbol: Seq<char>| #[trigger]
                    slots.dom().contains(symbol) implies slots[symbol] < self.symbols.len()
                    && self.symbols[slots[symbol] as int].book@.symbol == symbol by {
                    let i = slots[symbol] as int;
                    assert(self.symbols[i].book@.symbol == old(self).symbols[i].book@.symbol);
                }
            }
            assert(self.books_wf()) by {
                assert forall|i: int| 0 <= i < self.symbols.len() implies (
                #[trigger] self.symbols[i]).book.wf() by {
                    if i != place {
                        assert(self.symbols[i] == old(self).symbols[i]);
                    }
                }
            }
            assert(self@.consistent()) by {
                assert forall|i: int, j: int| 0 <= i < j < self@.symbols.len() implies (
                #[trigger] self@.symbols[i]).symbol() != (
                #[trigger] self@.symbols[j]).symbol() by {
                    assert(self@.symbols[i].symbol() == before.symbols[i].symbol());
                    assert(self@.symbols[j].symbol() == before.symbols[j].symbol());
                }
                assert forall|i: int, k: int|
                    0 <= i < self@.symbols.len() && 0 <= k
                        < self@.symbols[i].subscriptions.len() implies {
                    let held = #[trigger] self@.symbols[i].subscriptions[k];
                    &&& held.symbol == self@.symbols[i].symbol()
                    &&& self@.clients.dom().contains(held.client_id)
                    &&& self@.clients[held.client_id].streams.contains(held.stream_id)
                } by {
                    assert(self@.symbols[i].symbol() == before.symbols[i].symbol());
                    assert(before.symbols[i].subscriptions[k]
                        == self@.symbols[i].subscriptions[k]);
                }
            }
        }
        activities
    }

    /// One tick of the simulation. Symbol by symbol, in the order the
    /// symbols were first seen: the book is driven by random order events,
    /// then every subscriber of the symbol is sent the view it asked for of
    /// the book as it is now. Returns the events applied, in order. A queue
    /// that does not take its message does not stop the tick.
    pub fn market_tick(&mut self) -> (activities: Vec<OrderActivity>)
        requires
            old(self).wf(),
        ensures
            final(self).wf(),
            old(self)@.ticks_to(final(self)@),
            is_tick(old(self)@.symbols, final(self)@.symbols, activity_views(activities@)),
    {
        let mut activities: Vec<OrderActivity> = Vec::new();
        let mut place: usize = 0;
        proof {
            self.lemma_unfold();
            assert(activity_views(activities@) =~= Seq::empty());
        }
        while place < self.symbols.len()
            invariant
                self.wf(),
                place <= self.symbols.len(),
                self.symbols.len() == old(self).symbols.len(),
                self@.symbols.len() == self.symbols.len(),
                old(self)@.symbols.len() == old(self).symbols.len(),
                old(self)@.ticks_to(self@),
                is_tick(
                    old(self)@.symbols.take(place as int),
                    self@.symbols.take(place as int),
                    activity_views(activities@),
                ),
                forall|i: int|
                    place <= i < self.symbols.len() ==> (#[trigger] self@.symbols[i]) == old(
                        self,
                    )@.symbols[i],
            decreases self.symbols.len() - place,
        {
            let ghost before = self@;
            let ghost earlier = activity_views(activities@);
            let mut applied = self.simulate_symbol(place);
            proof {
                self.lemma_unfold();
                assert(self@.symbols.len() == before.symbols.len());
                assert(self@.symbols.len() == self.symbols.len());
                let events = activity_views(applied@);
                lemma_run_symbol(before.symbols[place as int].book, events);
                assert forall|i: int| 0 <= i < before.symbols.len() implies {
                    &&& (#[trigger] self@.symbols[i]).symbol() == old(self)@.symbols[i].symbol()
                    &&& self@.symbols[i].subscriptions == old(self)@.symbols[i].subscriptions
                    &&& self@.symbols[i].book.sequence >= old(self)@.symbols[i].book.sequence
                } by {
                    assert(before.symbols[i].symbol() == old(self)@.symbols[i].symbol());
                }
                self.lemma_unfold();
            }
            let ghost latest = activity_views(applied@);
            activities.append(&mut applied);
            proof {
                let events = activity_views(activities@);
                let n = earlier.len() as int;
                let heads = old(self)@.symbols.take(place + 1);
                let tails = self@.symbols.take(place + 1);
                assert(events.take(n) =~= earlier);
                assert(heads.drop_last() =~= old(self)@.symbols.take(place as int));
                assert(tails.drop_last() =~= before.symbols.take(place as int));
                assert(heads.last() == before.symbols[place as int]);
                assert(tails.last() == self@.symbols[place as int]);
                assert(is_tick(heads.drop_last(), tails.drop_last(), events.take(n)));
                assert(is_symbol_tick(heads.last(), tails.last(), events.skip(n))) by {
                    assert(events.skip(n) =~= latest);
                }
                assert(is_tick(heads, tails, events));
            }
            let now = now_millis();
            let deliveries = self.snapshots_for(place, now);
            let _ = self.dispatch(deliveries);
            place += 1;
        }
        proof {
            assert(old(self)@.symbols.take(place as int) =~= old(self)@.symbols);
            assert(self@.symbols.take(place as int) =~= self@.symbols);
        }
        activities
    }

    /// Sees to it that the symbols that every server starts with have their
    /// books: `BTCUSD`, `ETHUSD` and `ADAUSD`.
    pub fn start(&mut self)
        requires
            old(self).wf(),
        ensures
            final(self).wf(),
            exists|second: RegistryView, third: RegistryView|
                #![trigger second.sees(third, "ETHUSD"@)]
                old(self)@.sees(second, "BTCUSD"@) && second.sees(third, "ETHUSD"@) && third.sees(
                    final(self)@,
                    "ADAUSD"@,
                ),
            final(self)@.knows("BTCUSD"@),
            final(self)@.knows("ETHUSD"@),
            final(self)@.knows("ADAUSD"@),
            final(self)@.clients == old(self)@.clients,
            final(self)@.symbols.len() >= old(self)@.symbols.len(),
            forall|i: int|
                0 <= i < old(self)@.symbols.len() ==> (#[trigger] final(self)@.symbols[i]) == old(
                    self,
                )@.symbols[i],
    {
        let ghost first = self@;
        let a = self.initialize_symbol("BTCUSD");
        let ghost second = self@;
        proof {
            lemma_sees_keeps(first, second, "BTCUSD"@);
        }
        let b = self.initialize_symbol("ETHUSD");
        let ghost third = self@;
        proof {
            lemma_sees_keeps(second, third, "ETHUSD"@);
            assert(third.symbols[a as int] == second.symbols[a as int]);
        }
        let c = self.initialize_symbol("ADAUSD");
        proof {
            lemma_sees_keeps(third, self@, "ADAUSD"@);
            assert(self@.symbols[a as int] == third.symbols[a as int]);
            assert(self@.symbols[b as int] == third.symbols[b as int]);
            assert(self@.symbols[a as int].symbol() == "BTCUSD"@);
            assert(self@.symbols[b as int].symbol() == "ETHUSD"@);
        }
    }

    /// Does what a client asks and returns the answer it is owed: a
    /// subscription is made or ended, a ping is answered by a heartbeat.
    /// The answer is not sent.
    pub fn handle_message(&mut self, client_id: ClientId, message: ClientMessage) -> (reply:
        ServerMessage)
        requires
            old(self).wf(),
        ensures
            final(self).wf(),
            is_answer(old(self)@, final(self)@, client_id, message, reply@),
    {
        match message {
            ClientMessage::Subscribe { stream_id, symbol, data_type, max_levels } => {
                let outcome = self.subscribe(
                    client_id,
                    stream_id.clone(),
                    symbol.clone(),
                    data_type,
                    max_levels,
                );
                reply_to_subscribe(outcome, stream_id, symbol, data_type)
            },
            ClientMessage::Unsubscribe { stream_id } => {
                let found = self.unsubscribe(client_id, stream_id.as_str());
                reply_to_unsubscribe(found, stream_id)
            },
            ClientMessage::Ping { timestamp: _ } => {
                ServerMessage::HeartBeat { timestamp: now_millis() }
            },
        }
    }

    /// Does what a client asks, and puts the answer in its queue. Returns
    /// whether the queue took it.
    pub fn serve_message(&mut self, client_id: ClientId, message: ClientMessage) -> (taken: bool)
        requires
            old(self).wf(),
        ensures
            final(self).wf(),
            exists|reply: ServerMessageView| #[trigger]
                is_answer(old(self)@, final(self)@, client_id, message, reply),
            taken ==> final(self)@.clients.dom().contains(client_id),
    {
        let reply = self.handle_message(client_id, message);
        self.send_to(client_id, reply)
    }
}

} // verus!
