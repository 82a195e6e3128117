use multi_cast_clock::ipc::{
    check_and_execute_task, sort_message_queue, Message, MessageContent, MessageQueue, ACK, METHOD, REQ,
};
use std::collections::VecDeque;

fn req_msg(id: usize, src: usize, ts: u64) -> Message {
    Message { content: MessageContent::REQ(REQ { id, src, method: METHOD::UPDATE }), timestamp: Some(ts) }
}

fn ack_msg(src: usize, publisher: usize, ts: u64) -> Message {
    Message { content: MessageContent::ACK(ACK { req_id: Some(0), src, publisher }), timestamp: Some(ts) }
}

fn queue_of(v: Vec<Message>) -> MessageQueue {
    VecDeque::from(v)
}

#[test]
fn req_default_values() {
    let r = REQ::default();
    assert_eq!(r, REQ { id: 0, src: 0, method: METHOD::UPDATE });
    let d: REQ = Default::default();
    assert_eq!(d, r);
    let m: METHOD = Default::default();
    assert_eq!(m, METHOD::UPDATE);
}

#[test]
fn operator_request_built_from_default() {
    let message = Message {
        content: MessageContent::OPE(REQ { method: METHOD::UPDATE, src: 1, ..Default::default() }),
        timestamp: None,
    };
    assert_eq!(message.content, MessageContent::OPE(REQ { id: 0, src: 1, method: METHOD::UPDATE }));
}

#[test]
fn gen_ack_references_request() {
    let r = REQ { id: 5, src: 2, method: METHOD::DELETE };
    let m = r.gen_ack(1, Some(33));
    assert_eq!(
        m,
        Message { content: MessageContent::ACK(ACK { req_id: Some(5), src: 2, publisher: 1 }), timestamp: Some(33) }
    );
    let m = r.gen_ack(2, None);
    assert_eq!(m.timestamp, None);
}

#[test]
fn sort_orders_by_timestamp() {
    let q = queue_of(vec![req_msg(0, 1, 30), ack_msg(1, 2, 10), ack_msg(1, 1, 20)]);
    let s = sort_message_queue(&q);
    let got: Vec<Message> = s.into_iter().collect();
    assert_eq!(got, vec![ack_msg(1, 2, 10), ack_msg(1, 1, 20), req_msg(0, 1, 30)]);
}

#[test]
fn sort_is_stable() {
    let q = queue_of(vec![ack_msg(2, 2, 15), req_msg(0, 1, 15), ack_msg(1, 1, 5), ack_msg(1, 2, 15)]);
    let s = sort_message_queue(&q);
    let got: Vec<Message> = s.into_iter().collect();
    assert_eq!(got, vec![ack_msg(1, 1, 5), ack_msg(2, 2, 15), req_msg(0, 1, 15), ack_msg(1, 2, 15)]);
}

#[test]
fn sort_twice_is_sort_once() {
    let q = queue_of(vec![req_msg(0, 1, 9), ack_msg(1, 2, 3), ack_msg(1, 1, 9), req_msg(1, 2, 1)]);
    let once = sort_message_queue(&q);
    let twice = sort_message_queue(&once);
    assert_eq!(once, twice);
}

#[test]
fn sort_of_small_queues() {
    let empty: MessageQueue = VecDeque::new();
    assert!(sort_message_queue(&empty).is_empty());
    let one = queue_of(vec![Message { content: MessageContent::OPE(REQ::default()), timestamp: None }]);
    assert_eq!(sort_message_queue(&one), one);
}

#[test]
fn executes_when_both_acks_present() {
    let mut q = queue_of(vec![req_msg(0, 1, 10), ack_msg(1, 1, 11), ack_msg(1, 2, 12), req_msg(0, 2, 13)]);
    let done = check_and_execute_task(&mut q, 1, 2);
    assert_eq!(done.len(), 1);
    assert_eq!(done[0].request, REQ { id: 0, src: 1, method: METHOD::UPDATE });
    assert_eq!(done[0].remaining, vec![req_msg(0, 2, 13)]);
    assert_eq!(q, queue_of(vec![req_msg(0, 2, 13)]));
}

#[test]
fn waits_for_missing_ack() {
    let mut q = queue_of(vec![req_msg(0, 1, 10), ack_msg(1, 1, 11)]);
    let before = q.clone();
    let done = check_and_execute_task(&mut q, 1, 2);
    assert!(done.is_empty());
    assert_eq!(q, before);
}

#[test]
fn acks_of_other_source_do_not_count() {
    let mut q = queue_of(vec![req_msg(0, 1, 10), ack_msg(2, 1, 11), ack_msg(2, 2, 12)]);
    let done = check_and_execute_task(&mut q, 1, 2);
    assert!(done.is_empty());
    assert_eq!(q.len(), 3);
}

#[test]
fn two_requests_each_executed() {
    let mut q = queue_of(vec![
        req_msg(0, 1, 10),
        req_msg(0, 2, 11),
        ack_msg(1, 1, 12),
        ack_msg(1, 2, 13),
        ack_msg(2, 1, 14),
        ack_msg(2, 2, 15),
    ]);
    let done = check_and_execute_task(&mut q, 1, 2);
    assert_eq!(done.len(), 2);
    assert_eq!(done[0].request.src, 1);
    assert_eq!(done[0].remaining, vec![req_msg(0, 2, 11), ack_msg(2, 1, 14), ack_msg(2, 2, 15)]);
    assert_eq!(done[1].request.src, 2);
    assert!(done[1].remaining.is_empty());
    assert!(q.is_empty());
}

#[test]
fn duplicate_acknowledgement_erased_alone() {
    // The same acknowledgement queued twice: both copies go with the request,
    // and the other receiver's request stays.
    let r1 = req_msg(0, 1, 10);
    let a = ack_msg(1, 1, 20);
    let r2 = req_msg(0, 2, 30);
    let b = ack_msg(1, 2, 40);
    let mut q = queue_of(vec![r1, a, a, r2, b]);
    let done = check_and_execute_task(&mut q, 1, 2);
    assert_eq!(done.len(), 1);
    assert_eq!(done[0].request, REQ { id: 0, src: 1, method: METHOD::UPDATE });
    assert_eq!(done[0].remaining, vec![r2]);
    assert_eq!(q, queue_of(vec![r2]));
}

#[test]
fn unrelated_messages_keep_their_order() {
    let x = ack_msg(3, 3, 5);
    let r2 = req_msg(0, 2, 6);
    let mut q = queue_of(vec![x, req_msg(0, 1, 10), r2, ack_msg(1, 1, 11), ack_msg(1, 2, 12), ack_msg(2, 1, 13)]);
    let done = check_and_execute_task(&mut q, 1, 2);
    assert_eq!(done.len(), 1);
    assert_eq!(q, queue_of(vec![x, r2, ack_msg(2, 1, 13)]));
}

#[test]
fn second_check_changes_nothing() {
    let mut q = queue_of(vec![
        req_msg(0, 1, 10),
        req_msg(0, 2, 11),
        ack_msg(1, 1, 12),
        ack_msg(1, 2, 13),
        ack_msg(2, 1, 14),
    ]);
    let first = check_and_execute_task(&mut q, 1, 2);
    assert_eq!(first.len(), 1);
    let after_first = q.clone();
    let second = check_and_execute_task(&mut q, 1, 2);
    assert!(second.is_empty());
    assert_eq!(q, after_first);
}

#[test]
fn no_request_leaves_queue() {
    let mut q = queue_of(vec![ack_msg(1, 1, 1), ack_msg(1, 2, 2)]);
    let done = check_and_execute_task(&mut q, 1, 2);
    assert!(done.is_empty());
    assert_eq!(q.len(), 2);
}
