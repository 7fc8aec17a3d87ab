//! Messages framed as server-sent events.

use vstd::prelude::*;

use crate::message::{event_name_of, ServerMessage};
use crate::text::optional_slice;

verus! {

/// A message's JSON text framed as an event without a name; where the
/// message could not be written as JSON, a fixed frame that says so.
pub open spec fn sse_data(json: Option<Seq<char>>) -> Seq<char> {
    match json {
        Some(text) => "data: "@ + text + "\n\n"@,
        None => "data: {\"event\":\"error\",\"message\":\"Serialization failed\"}\n\n"@,
    }
}

/// A message's JSON text framed as an event under a name; where the message
/// could not be written as JSON, a fixed error frame that says so.
pub open spec fn sse_event(name: Seq<char>, json: Option<Seq<char>>) -> Seq<char> {
    match json {
        Some(text) => "event: "@ + name + "\ndata: "@ + text + "\n\n"@,
        None => "event: error\ndata: {\"message\":\"Serialization failed\"}\n\n"@,
    }
}

impl ServerMessage {
    /// The message framed as an event without a name, given its JSON text,
    /// or nothing where it could not be written as JSON.
    pub fn to_sse_data(&self, json: Option<&str>) -> (frame: String)
        ensures
            frame@ == sse_data(optional_slice(json)),
    {
        match json {
            Some(text) => {
                let mut frame = String::from_str("data: ");
                frame.append(text);
                frame.append("\n\n");
                frame
            },
            None => String::from_str(
                "data: {\"event\":\"error\",\"message\":\"Serialization failed\"}\n\n",
            ),
        }
    }

    /// The message framed as an event under the name of its kind, given its
    /// JSON text, or nothing where it could not be written as JSON.
    pub fn to_sse_event(&self, json: Option<&str>) -> (frame: String)
        ensures
            frame@ == sse_event(event_name_of(self@), optional_slice(json)),
    {
        match json {
            Some(text) => {
                let mut frame = String::from_str("event: ");
                frame.append(self.event_name());
                frame.append("\ndata: ");
                frame.append(text);
                frame.append("\n\n");
                frame
            },
            None => String::from_str(
                "event: error\ndata: {\"message\":\"Serialization failed\"}\n\n",
            ),
        }
    }
}

} // verus!
