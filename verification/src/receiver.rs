//! How a receiver takes in a message from the network: the decisions of its
//! main loop, which the program around the library carries out (sleeping,
//! reading the shared clock, multicasting).

use crate::clock::{adjust_time_clock, adjusted, LogicClock, CATCH_UP_TENTHS};
use crate::ipc::{Message, MessageContent, MessageQueue, ReceiverId, Timestamp, REQ};
use vstd::prelude::*;

verus! {

/// What the receiver has to do after taking in a message.
#[derive(Debug, Clone, Copy, PartialEq, Eq, Structural)]
pub enum Reaction {
    /// An acknowledgement was queued; nothing is to be sent.
    Queued,
    /// One of this receiver's own requests, echoed back by the multicast
    /// group: ignored, and the queue is not to be processed this round.
    Ignored,
    /// Another receiver's request was queued; its acknowledgement is to be
    /// multicast.
    Acknowledge(REQ),
    /// A request from the operator: it is to be stamped, queued and
    /// multicast (see `queue_request`), then acknowledged.
    Stamp(REQ),
}

/// The message carries the timestamp that taking it in reads, and moving the
/// clock past that timestamp stays within `u64`.
pub open spec fn acceptable(message: Message, my_id: ReceiverId) -> bool {
    let stamped = match message.timestamp {
        Some(t) => t + CATCH_UP_TENTHS <= u64::MAX,
        None => false,
    };
    match message.content {
        MessageContent::ACK(_) => stamped,
        MessageContent::REQ(req) => req.src != my_id ==> stamped,
        MessageContent::OPE(_) => true,
    }
}

/// Takes in one message. An acknowledgement, and a request from another
/// receiver, move the clock past the message's timestamp and go to the front
/// of the queue; a request of this receiver itself is ignored; a request from
/// the operator is handed back to be stamped.
pub fn receive_message(
    queue: &mut MessageQueue,
    clock: &mut LogicClock,
    message: Message,
    my_id: ReceiverId,
) -> (reaction: Reaction)
    requires
        acceptable(message, my_id),
    ensures
        match message.content {
            MessageContent::ACK(_) => {
                &&& reaction == Reaction::Queued
                &&& final(clock).clock == adjusted(old(clock).clock, message.timestamp.unwrap())
                &&& final(queue)@ == seq![message] + old(queue)@
            },
            MessageContent::REQ(req) => if req.src == my_id {
                &&& reaction == Reaction::Ignored
                &&& final(clock).clock == old(clock).clock
                &&& final(queue)@ == old(queue)@
            } else {
                &&& reaction == Reaction::Acknowledge(req)
                &&& final(clock).clock == adjusted(old(clock).clock, message.timestamp.unwrap())
                &&& final(queue)@ == seq![message] + old(queue)@
            },
            MessageContent::OPE(req) => {
                &&& reaction == Reaction::Stamp(req)
                &&& final(clock).clock == old(clock).clock
                &&& final(queue)@ == old(queue)@
            },
        },
{
    match message.content {
        MessageContent::ACK(_) => {
            adjust_time_clock(clock, message.timestamp.unwrap());
            queue.push_front(message);
            Reaction::Queued
        },
        MessageContent::REQ(req) => {
            if req.src == my_id {
                Reaction::Ignored
            } else {
                adjust_time_clock(clock, message.timestamp.unwrap());
                queue.push_front(message);
                Reaction::Acknowledge(req)
            }
        },
        MessageContent::OPE(req) => Reaction::Stamp(req),
    }
}

/// Turns an operator's request into this receiver's request stamped with
/// `timestamp`, puts it at the front of the queue and returns it, to be
/// multicast.
pub fn queue_request(queue: &mut MessageQueue, request: REQ, timestamp: Timestamp) -> (m: Message)
    ensures
        m == (Message { content: MessageContent::REQ(request), timestamp }),
        final(queue)@ == seq![m] + old(queue)@,
{
    let m = Message { content: MessageContent::REQ(request), timestamp };
    queue.push_front(m);
    m
}

} // verus!
