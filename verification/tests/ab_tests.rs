use multi_cast_clock::clock::LogicClock;
use multi_cast_clock::ipc_ab::{Message, Receiver, ACK, METHOD, REQ};
use multi_cast_clock::receiver_b::{check_and_execute_task, get_current_timestamp};
use std::collections::VecDeque;

fn req(src: Receiver, ts: u64) -> Message {
    Message::REQ(REQ { id: Some(1), src, method: METHOD::READ, done: false, timestamp: Some(ts) })
}

fn ack(src: Receiver, publisher: Receiver, ts: u64) -> Message {
    Message::ACK(ACK { req_id: Some(1), src, publisher, timestamp: Some(ts) })
}

#[test]
fn ab_defaults() {
    let r = REQ::default();
    assert_eq!(r, REQ { id: None, src: Receiver::A, method: METHOD::UPDATE, done: false, timestamp: None });
    let d: REQ = Default::default();
    assert_eq!(d, r);
    let rc: Receiver = Default::default();
    assert_eq!(rc, Receiver::A);
}

#[test]
fn ab_gen_ack() {
    let r = REQ { id: Some(4), src: Receiver::B, method: METHOD::CREATE, done: false, timestamp: Some(3) };
    let a = r.gen_ack(Receiver::A, Some(9));
    assert_eq!(a, ACK { req_id: Some(4), src: Receiver::B, publisher: Receiver::A, timestamp: Some(9) });
}

#[test]
fn ab_timestamp_reads_clock() {
    assert_eq!(get_current_timestamp(&LogicClock { clock: 3 }), Some(3));
}

#[test]
fn ab_executes_with_both_acks() {
    let mut q: VecDeque<Message> =
        VecDeque::from(vec![req(Receiver::A, 1), ack(Receiver::A, Receiver::A, 2), ack(Receiver::A, Receiver::B, 3)]);
    let done = check_and_execute_task(&mut q);
    assert_eq!(done.len(), 1);
    assert_eq!(done[0].src, Receiver::A);
    // the request and both of its acknowledgements are erased
    assert!(q.is_empty());
    assert!(check_and_execute_task(&mut q).is_empty());
}

#[test]
fn ab_waits_for_missing_ack() {
    let mut q: VecDeque<Message> = VecDeque::from(vec![req(Receiver::B, 1), ack(Receiver::B, Receiver::A, 2)]);
    let done = check_and_execute_task(&mut q);
    assert!(done.is_empty());
    assert_eq!(q.len(), 2);
}

#[test]
fn ab_no_request_unchanged() {
    let mut q: VecDeque<Message> =
        VecDeque::from(vec![ack(Receiver::B, Receiver::A, 2), ack(Receiver::B, Receiver::B, 3)]);
    let done = check_and_execute_task(&mut q);
    assert!(done.is_empty());
    assert_eq!(q.len(), 2);
}

#[test]
fn ab_second_request_waits_for_new_acks() {
    let r1 = Message::REQ(REQ { id: Some(1), src: Receiver::A, method: METHOD::READ, done: false, timestamp: Some(1) });
    let r2 = Message::REQ(REQ { id: Some(2), src: Receiver::A, method: METHOD::READ, done: false, timestamp: Some(2) });
    let other = ack(Receiver::B, Receiver::A, 5);
    let aa = ack(Receiver::A, Receiver::A, 3);
    let ab = ack(Receiver::A, Receiver::B, 4);
    let mut q: VecDeque<Message> = VecDeque::from(vec![r1, r2, other, aa, ab]);
    let done = check_and_execute_task(&mut q);
    // the first request runs and takes the acknowledgements for A with it;
    // the second then waits for acknowledgements of its own
    assert_eq!(done.len(), 1);
    assert_eq!(done[0].id, Some(1));
    assert_eq!(q, VecDeque::from(vec![r2, other]));
    let again = check_and_execute_task(&mut q);
    assert!(again.is_empty());
    assert_eq!(q, VecDeque::from(vec![r2, other]));
}
