//! Limit-order-book state for a set of trading symbols, and the registry that
//! distributes market-depth views of it to subscribed clients.
//!
//! Prices are fixed-point: a price is a whole number of ticks, one tick being
//! one hundredth of a currency unit. Times are milliseconds since the Unix
//! epoch. Quantities that are sums are kept in 128 bits, so that no view of
//! a book can overflow.
//!
//! # The book
//!
//! An [`OrderBook`] is valued as its resting orders in order of arrival
//! ([`order_book::BookView`]). The ladder of each side is a function of that
//! value ([`ladder`]), and so are the views of the book ([`depth`]). The
//! book keeps an index of its orders and a ladder of ids for each side; that
//! these agree is its invariant, [`OrderBook::wf`]. [`activity`] holds the
//! synthetic order events that drive a book, and [`laws`] what follows for
//! every book.
//!
//! # The registry
//!
//! A [`StreamManager`] is valued as the symbols seen so far, each with its
//! book and subscriptions, and the connected clients, each with its queue
//! and the stream ids it owns ([`registry::RegistryView`]). Its operations take the
//! registry exclusively; sharing it between tasks is left to the caller.
//! What the registry sends is decided by functions that return the
//! messages ([`StreamManager::snapshots_for`], [`StreamManager::heartbeats`],
//! [`StreamManager::add_subscription`]) and put into the clients' queues by
//! others ([`StreamManager::dispatch`], [`StreamManager::send_to`]).
//!
//! # What is taken on trust
//!
//! The clock ([`clock`]), the random number generator ([`random`]), the
//! clients' queues ([`channel`]), the two lookup tables of the registry
//! ([`index`]), the text of a client's identifier ([`client_name`]), the
//! upper case of a text ([`stream_query::uppercased`]) and the equality of
//! string slices ([`str_eq`]) are not verified here: each stands behind a
//! contract that is stated where it is declared.

pub mod activity;
pub mod channel;
pub mod client_name;
pub mod clock;
pub mod depth;
pub mod index;
pub mod ladder;
pub mod laws;
pub mod message;
pub mod order;
pub mod order_book;
pub mod random;
pub mod registry;
pub mod seq_facts;
pub mod sse;
pub mod str_eq;
pub mod stream_manager;
pub mod stream_query;
pub mod text;

pub use activity::ActivityDraws;
pub use channel::ClientSender;
pub use depth::Ratio;
pub use message::{
    ActivityType, ClientId, ClientMessage, DataType, Delivery, MBOLevel, MBPLevel,
    MarketDataUpdate, OrderActivity, SSEMessage, SSESubscription, ServerMessage, Side,
    Subscription,
};
pub use order::Order;
pub use order_book::OrderBook;
pub use stream_manager::{SSEStreamManager, StreamManager, SubscribeError};
pub use stream_query::StreamQuery;
