//! Routing of decoded messages to their handlers.
use vstd::prelude::*;
use crate::message::{Body, Message, GET_EVENTS_REPLY, GET_EVENTS_REQUEST};

verus! {

/// The reply to a request for events: the reply discriminant and an empty reply body.
pub open spec fn get_events_reply() -> Message {
    Message { kind: GET_EVENTS_REPLY, body: Body::GetEventsReply }
}

/// What the dispatcher answers to `m`: a reply for a request for events,
/// nothing for every other discriminant.
pub open spec fn dispatch_spec(m: Message) -> Option<Message> {
    if m.kind == GET_EVENTS_REQUEST {
        Some(get_events_reply())
    } else {
        None
    }
}

/// Handles a request for events. The request carries no fields to read.
pub fn on_get_events_request(request: &Message) -> (r: Message)
    ensures
        r == get_events_reply(),
{
    Message { kind: GET_EVENTS_REPLY, body: Body::GetEventsReply }
}

/// Dispatches a decoded message by its discriminant. Every discriminant has a
/// defined outcome: one handler runs, or nothing happens.
pub fn on_message_received(message: &Message) -> (r: Option<Message>)
    ensures
        r == dispatch_spec(*message),
        r is Some <==> message.kind == GET_EVENTS_REQUEST,
{
    if message.kind == GET_EVENTS_REQUEST {
        Some(on_get_events_request(message))
    } else {
        None
    }
}

} // verus!
