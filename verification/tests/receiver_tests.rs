use multi_cast_clock::clock::LogicClock;
use multi_cast_clock::ipc::{Message, MessageContent, MessageQueue, ACK, METHOD, REQ};
use multi_cast_clock::receiver::{queue_request, receive_message, Reaction};
use std::collections::VecDeque;

#[test]
fn ack_adjusts_clock_and_queues() {
    let mut q: MessageQueue = VecDeque::new();
    let mut c = LogicClock { clock: 5 };
    let m = Message { content: MessageContent::ACK(ACK { req_id: Some(0), src: 2, publisher: 2 }), timestamp: Some(20) };
    let r = receive_message(&mut q, &mut c, m, 1);
    assert_eq!(r, Reaction::Queued);
    assert_eq!(c.clock, 30);
    assert_eq!(q, VecDeque::from(vec![m]));
}

#[test]
fn own_request_is_ignored() {
    let mut q: MessageQueue = VecDeque::new();
    let mut c = LogicClock { clock: 5 };
    let m = Message { content: MessageContent::REQ(REQ { id: 0, src: 1, method: METHOD::READ }), timestamp: Some(50) };
    let r = receive_message(&mut q, &mut c, m, 1);
    assert_eq!(r, Reaction::Ignored);
    assert_eq!(c.clock, 5);
    assert!(q.is_empty());
}

#[test]
fn other_request_is_acknowledged() {
    let old = Message { content: MessageContent::ACK(ACK { req_id: None, src: 1, publisher: 1 }), timestamp: Some(1) };
    let mut q: MessageQueue = VecDeque::from(vec![old]);
    let mut c = LogicClock { clock: 50 };
    let req = REQ { id: 3, src: 2, method: METHOD::CREATE };
    let m = Message { content: MessageContent::REQ(req), timestamp: Some(40) };
    let r = receive_message(&mut q, &mut c, m, 1);
    assert_eq!(r, Reaction::Acknowledge(req));
    assert_eq!(c.clock, 50);
    assert_eq!(q, VecDeque::from(vec![m, old]));
}

#[test]
fn operator_request_is_handed_back() {
    let mut q: MessageQueue = VecDeque::new();
    let mut c = LogicClock { clock: 7 };
    let req = REQ { id: 0, src: 1, method: METHOD::UPDATE };
    let m = Message { content: MessageContent::OPE(req), timestamp: None };
    let r = receive_message(&mut q, &mut c, m, 1);
    assert_eq!(r, Reaction::Stamp(req));
    assert_eq!(c.clock, 7);
    assert!(q.is_empty());
    let stamped = queue_request(&mut q, req, Some(7));
    assert_eq!(stamped, Message { content: MessageContent::REQ(req), timestamp: Some(7) });
    assert_eq!(q, VecDeque::from(vec![stamped]));
}
