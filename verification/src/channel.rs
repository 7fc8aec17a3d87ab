//! The outbound queue of a client.

use tokio::sync::mpsc::UnboundedSender;
use vstd::prelude::*;

use crate::message::ServerMessage;

verus! {

/// The sending half of an unbounded channel of tokio. Its contents are not
/// modelled: a value of this type is only carried and handed to
/// [`push`].
#[verifier::external_type_specification]
#[verifier::external_body]
#[verifier::reject_recursive_types(T)]
pub struct ExUnboundedSender<T>(UnboundedSender<T>);

/// The sending half of a client's outbound queue.
pub type ClientSender = UnboundedSender<ServerMessage>;

/// The name that the event-stream front end knows [`ClientSender`] by.
pub type SSEClientSender = ClientSender;

/// Puts a message at the end of a client's queue, without waiting. Returns
/// whether the queue took it.
///
/// Trusted: calls `UnboundedSender::send` of tokio, which fails where the
/// receiving half was closed or dropped, and maps its result to `true` for
/// `Ok`. Which of the two comes back depends on the receiver, so nothing is
/// claimed of it.
#[verifier::external_body]
pub(crate) fn push(sender: &ClientSender, message: ServerMessage) -> (taken: bool) {
    sender.send(message).is_ok()
}

} // verus!
