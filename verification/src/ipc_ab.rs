//! The message model of the two-receiver variant, in which the receivers are
//! named A and B and each acknowledgement and request carries its own
//! timestamp.

use crate::ipc::Timestamp;
use vstd::prelude::*;

verus! {

/// The two receivers.
#[derive(Debug, Clone, Copy, Default, PartialEq, Eq, Structural)]
pub enum Receiver {
    #[default]
    A,
    B,
}

/// A message: an acknowledgement or a request.
#[derive(Debug, Clone, Copy, PartialEq, Eq, Structural)]
pub enum Message {
    ACK(ACK),
    REQ(REQ),
}

/// The acknowledgement of a request.
#[derive(Debug, Clone, Copy, PartialEq, Eq, Structural)]
pub struct ACK {
    /// The id of the acknowledged request; unique together with `src`.
    pub req_id: Option<usize>,
    /// The receiver that accepted the operation.
    pub src: Receiver,
    /// The receiver that issued this acknowledgement.
    pub publisher: Receiver,
    /// `None` on messages from the operator, which need no time.
    pub timestamp: Timestamp,
}

/// A request for an operation.
#[derive(Debug, Clone, Copy, PartialEq, Eq, Structural, Default)]
pub struct REQ {
    /// Tells requests apart inside a queue.
    pub id: Option<usize>,
    /// The receiver that accepted the operation.
    pub src: Receiver,
    /// The operation asked for.
    pub method: METHOD,
    /// Whether the operation has been carried out.
    pub done: bool,
    /// `None` on requests from the operator, which need no time.
    pub timestamp: Timestamp,
}

/// The operations of the simulated CRUD application.
#[derive(Debug, Clone, Copy, PartialEq, Eq, Structural, Default)]
pub enum METHOD {
    CREATE,
    #[default]
    UPDATE,
    READ,
    DELETE,
}

impl REQ {
    /// A request with no id and no timestamp, from receiver A, for `UPDATE`,
    /// not done: the operator creates requests and receivers assign ids and
    /// timestamps.
    pub fn default() -> (r: Self)
        ensures
            r == (REQ { id: None, src: Receiver::A, method: METHOD::UPDATE, done: false, timestamp: None }),
    {
        REQ { id: None, src: Receiver::A, method: METHOD::UPDATE, done: false, timestamp: None }
    }

    /// The acknowledgement of this request issued by `publisher`, stamped
    /// with `timestamp`.
    pub fn gen_ack(&self, publisher: Receiver, timestamp: Timestamp) -> (a: ACK)
        ensures
            a == (ACK { req_id: self.id, src: self.src, publisher, timestamp }),
    {
        ACK { req_id: self.id, src: self.src, publisher, timestamp }
    }
}

} // verus!
