//! The values that the book and the registry hand out.

use vstd::prelude::*;

use crate::text::{optional_text, text_views};

verus! {

/// The number of levels of a subscription that names none.
pub const DEFAULT_MAX_LEVELS: u32 = 20;

/// Side of the book an order rests on.
#[derive(Debug, Clone, Copy, PartialEq, Eq, Structural)]
pub enum Side {
    Bid,
    Ask,
}

/// Aggregation mode of a market-depth view.
#[derive(Debug, Clone, Copy, PartialEq, Eq, Structural)]
pub enum DataType {
    /// Market by order: individual resting orders.
    MBO,
    /// Market by price: orders aggregated by price level.
    MBP,
}

/// Kind of an order event.
#[derive(Debug, Clone, Copy, PartialEq, Eq, Structural)]
pub enum ActivityType {
    Add,
    Update,
    Cancel,
}

/// Identity of a connected client: the 128 bits of the identifier it was
/// given when it connected.
pub type ClientId = u128;

/// One resting order in a market-by-order view.
#[derive(Debug, Clone, PartialEq, Eq)]
pub struct MBOLevel {
    pub order_id: String,
    /// In ticks.
    pub price: u64,
    pub quantity: u64,
    pub side: Side,
    /// Resting since, in milliseconds since the epoch.
    pub timestamp: i64,
    pub age_ms: u64,
}

/// The mathematical value of an [`MBOLevel`].
pub struct MBOLevelView {
    pub order_id: Seq<char>,
    pub price: u64,
    pub quantity: u64,
    pub side: Side,
    pub timestamp: i64,
    pub age_ms: u64,
}

impl View for MBOLevel {
    type V = MBOLevelView;

    open spec fn view(&self) -> MBOLevelView {
        MBOLevelView {
            order_id: self.order_id@,
            price: self.price,
            quantity: self.quantity,
            side: self.side,
            timestamp: self.timestamp,
            age_ms: self.age_ms,
        }
    }
}

/// One price level in a market-by-price view.
#[derive(Debug, Clone, Copy, PartialEq, Eq, Structural)]
pub struct MBPLevel {
    /// In ticks.
    pub price: u64,
    /// The quantity resting at this price.
    pub quantity: u128,
    /// The number of orders resting at this price.
    pub order_count: u64,
    pub side: Side,
    /// The quantity resting at this price and at every price shown before it.
    pub total_quantity: u128,
    /// The mean age of the orders at this price, rounded down.
    pub avg_age_ms: u64,
}

/// An order event of the synthetic activity.
#[derive(Debug, Clone, PartialEq, Eq)]
pub struct OrderActivity {
    pub activity_type: ActivityType,
    pub order_id: String,
    pub symbol: String,
    /// In ticks; present on `Add`.
    pub price: Option<u64>,
    /// Present on `Add` and on `Update`.
    pub quantity: Option<u64>,
    /// Present on `Add`.
    pub side: Option<Side>,
    /// When the event was generated, in milliseconds since the epoch.
    pub timestamp: i64,
}

/// The mathematical value of an [`OrderActivity`].
pub struct OrderActivityView {
    pub activity_type: ActivityType,
    pub order_id: Seq<char>,
    pub symbol: Seq<char>,
    pub price: Option<u64>,
    pub quantity: Option<u64>,
    pub side: Option<Side>,
    pub timestamp: i64,
}

impl View for OrderActivity {
    type V = OrderActivityView;

    open spec fn view(&self) -> OrderActivityView {
        OrderActivityView {
            activity_type: self.activity_type,
            order_id: self.order_id@,
            symbol: self.symbol@,
            price: self.price,
            quantity: self.quantity,
            side: self.side,
            timestamp: self.timestamp,
        }
    }
}

impl OrderActivity {
    /// An independent copy of the event.
    pub fn duplicate(&self) -> (copy: OrderActivity)
        ensures
            copy@ == self@,
    {
        OrderActivity {
            activity_type: self.activity_type,
            order_id: self.order_id.clone(),
            symbol: self.symbol.clone(),
            price: self.price,
            quantity: self.quantity,
            side: self.side,
            timestamp: self.timestamp,
        }
    }
}

/// The values of a sequence of market-by-order rows.
pub open spec fn mbo_views(rows: Seq<MBOLevel>) -> Seq<MBOLevelView> {
    rows.map_values(|r: MBOLevel| r@)
}

/// A view of one book, shaped by the data type asked for.
#[derive(Debug, Clone, PartialEq, Eq)]
#[allow(inconsistent_fields)]
pub enum MarketDataUpdate {
    MBO { bids: Vec<MBOLevel>, asks: Vec<MBOLevel> },
    MBP { bids: Vec<MBPLevel>, asks: Vec<MBPLevel> },
    OrderActivity { activity: OrderActivity },
}

/// The mathematical value of a [`MarketDataUpdate`].
#[allow(inconsistent_fields)]
pub enum MarketDataView {
    MBO { bids: Seq<MBOLevelView>, asks: Seq<MBOLevelView> },
    MBP { bids: Seq<MBPLevel>, asks: Seq<MBPLevel> },
    OrderActivity { activity: OrderActivityView },
}

impl View for MarketDataUpdate {
    type V = MarketDataView;

    open spec fn view(&self) -> MarketDataView {
        match *self {
            MarketDataUpdate::MBO { bids, asks } => MarketDataView::MBO {
                bids: mbo_views(bids@),
                asks: mbo_views(asks@),
            },
            MarketDataUpdate::MBP { bids, asks } => MarketDataView::MBP {
                bids: bids@,
                asks: asks@,
            },
            MarketDataUpdate::OrderActivity { activity } => MarketDataView::OrderActivity {
                activity: activity@,
            },
        }
    }
}

/// A client's standing request for one view of one symbol.
#[derive(Debug, Clone, PartialEq, Eq)]
pub struct Subscription {
    pub stream_id: String,
    pub symbol: String,
    pub data_type: DataType,
    pub max_levels: u32,
    pub client_id: ClientId,
}

/// The mathematical value of a [`Subscription`].
pub struct SubscriptionView {
    pub stream_id: Seq<char>,
    pub symbol: Seq<char>,
    pub data_type: DataType,
    pub max_levels: u32,
    pub client_id: ClientId,
}

impl View for Subscription {
    type V = SubscriptionView;

    open spec fn view(&self) -> SubscriptionView {
        SubscriptionView {
            stream_id: self.stream_id@,
            symbol: self.symbol@,
            data_type: self.data_type,
            max_levels: self.max_levels,
            client_id: self.client_id,
        }
    }
}

/// The number of levels asked for, or the default where none is.
pub open spec fn levels_or_default(max_levels: Option<u32>) -> u32 {
    match max_levels {
        Some(levels) => levels,
        None => DEFAULT_MAX_LEVELS,
    }
}

impl Subscription {
    /// A subscription of `client_id`; without a number of levels it gets
    /// [`DEFAULT_MAX_LEVELS`].
    pub fn new(
        stream_id: String,
        symbol: String,
        data_type: DataType,
        max_levels: Option<u32>,
        client_id: ClientId,
    ) -> (subscription: Subscription)
        ensures
            subscription@ == (SubscriptionView {
                stream_id: stream_id@,
                symbol: symbol@,
                data_type,
                max_levels: levels_or_default(max_levels),
                client_id,
            }),
    {
        let max_levels = match max_levels {
            Some(levels) => levels,
            None => DEFAULT_MAX_LEVELS,
        };
        Subscription { stream_id, symbol, data_type, max_levels, client_id }
    }
}

/// What the registry sends to a client.
#[derive(Debug, Clone, PartialEq, Eq)]
#[allow(inconsistent_fields)]
pub enum ServerMessage {
    /// A subscription was accepted.
    Subscribed { stream_id: String, symbol: String, data_type: DataType },
    /// A subscription was ended.
    Unsubscribed { stream_id: String },
    /// A view of a book at a sequence number.
    MarketData {
        stream_id: String,
        symbol: String,
        data: MarketDataUpdate,
        sequence: u64,
        timestamp: i64,
    },
    /// The server is alive.
    HeartBeat { timestamp: i64 },
    /// What a client is told once when it has connected.
    ConnectionInfo { client_id: String, server_time: i64, supported_symbols: Vec<String> },
    /// A request failed.
    Error { code: u32, message: String, stream_id: Option<String> },
}

/// The mathematical value of a [`ServerMessage`].
#[allow(inconsistent_fields)]
pub enum ServerMessageView {
    Subscribed { stream_id: Seq<char>, symbol: Seq<char>, data_type: DataType },
    Unsubscribed { stream_id: Seq<char> },
    MarketData {
        stream_id: Seq<char>,
        symbol: Seq<char>,
        data: MarketDataView,
        sequence: u64,
        timestamp: i64,
    },
    HeartBeat { timestamp: i64 },
    ConnectionInfo { client_id: Seq<char>, server_time: i64, supported_symbols: Seq<Seq<char>> },
    Error { code: u32, message: Seq<char>, stream_id: Option<Seq<char>> },
}

impl View for ServerMessage {
    type V = ServerMessageView;

    open spec fn view(&self) -> ServerMessageView {
        match *self {
            ServerMessage::Subscribed { stream_id, symbol, data_type } => {
                ServerMessageView::Subscribed { stream_id: stream_id@, symbol: symbol@, data_type }
            },
            ServerMessage::Unsubscribed { stream_id } => ServerMessageView::Unsubscribed {
                stream_id: stream_id@,
            },
            ServerMessage::MarketData { stream_id, symbol, data, sequence, timestamp } => {
                ServerMessageView::MarketData {
                    stream_id: stream_id@,
                    symbol: symbol@,
                    data: data@,
                    sequence,
                    timestamp,
                }
            },
            ServerMessage::HeartBeat { timestamp } => ServerMessageView::HeartBeat { timestamp },
            ServerMessage::ConnectionInfo { client_id, server_time, supported_symbols } => {
                ServerMessageView::ConnectionInfo {
                    client_id: client_id@,
                    server_time,
                    supported_symbols: text_views(supported_symbols@),
                }
            },
            ServerMessage::Error { code, message, stream_id } => ServerMessageView::Error {
                code,
                message: message@,
                stream_id: optional_text(stream_id),
            },
        }
    }
}

/// The name of the event that a message of each kind is sent as.
pub open spec fn event_name_of(message: ServerMessageView) -> Seq<char> {
    match message {
        ServerMessageView::Subscribed { .. } => "subscribed"@,
        ServerMessageView::Unsubscribed { .. } => "unsubscribed"@,
        ServerMessageView::MarketData { .. } => "market_data"@,
        ServerMessageView::HeartBeat { .. } => "heartbeat"@,
        ServerMessageView::ConnectionInfo { .. } => "connection_info"@,
        ServerMessageView::Error { .. } => "error"@,
    }
}

impl ServerMessage {
    /// The name of the event that the message is sent as.
    pub fn event_name(&self) -> (name: &'static str)
        ensures
            name@ == event_name_of(self@),
    {
        match self {
            ServerMessage::Subscribed { .. } => "subscribed",
            ServerMessage::Unsubscribed { .. } => "unsubscribed",
            ServerMessage::MarketData { .. } => "market_data",
            ServerMessage::HeartBeat { .. } => "heartbeat",
            ServerMessage::ConnectionInfo { .. } => "connection_info",
            ServerMessage::Error { .. } => "error",
        }
    }
}

/// What a client of the bidirectional protocol asks of the registry.
#[derive(Debug, Clone, PartialEq, Eq)]
#[allow(inconsistent_fields)]
pub enum ClientMessage {
    Subscribe { stream_id: String, symbol: String, data_type: DataType, max_levels: Option<u32> },
    Unsubscribe { stream_id: String },
    Ping { timestamp: i64 },
}

/// A message on its way to a client.
#[derive(Debug, Clone, PartialEq, Eq)]
pub struct Delivery {
    pub client_id: ClientId,
    pub message: ServerMessage,
}

/// The mathematical value of a [`Delivery`].
pub struct DeliveryView {
    pub client_id: ClientId,
    pub message: ServerMessageView,
}

impl View for Delivery {
    type V = DeliveryView;

    open spec fn view(&self) -> DeliveryView {
        DeliveryView { client_id: self.client_id, message: self.message@ }
    }
}

/// The values of a sequence of deliveries.
pub open spec fn delivery_views(deliveries: Seq<Delivery>) -> Seq<DeliveryView> {
    deliveries.map_values(|d: Delivery| d@)
}

/// The name that the event-stream front end knows [`ServerMessage`] by.
pub type SSEMessage = ServerMessage;

/// The name that the event-stream front end knows [`Subscription`] by.
pub type SSESubscription = Subscription;

} // verus!
