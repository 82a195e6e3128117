//! Messages exchanged between receivers and the operator, and the queue in
//! which a receiver keeps them until a request may be executed.

use crate::order::{all_stamped, key, lemma_first_later_unique, lemma_sort_by_timestamps, sort_by_timestamp, stamp_is};
use crate::seqs::keep_where;
use crate::tasks::{
    acknowledged_by, erase_executed, execute_from, execute_ready_tasks, execute_step, is_ack_for, is_ack_from,
};
use std::collections::VecDeque;
use vstd::prelude::*;

verus! {

/// The queue in which a receiver keeps requests and acknowledgements.
pub type MessageQueue = VecDeque<Message>;

/// A message timestamp in tenths of a logical time unit; `None` for messages
/// from the operator, which carry no time.
pub type Timestamp = Option<u64>;

/// The identifier of a receiver.
pub type ReceiverId = usize;

/// A message: an acknowledgement or a request, with its timestamp.
#[derive(Debug, Clone, Copy, PartialEq, Eq, Structural)]
pub struct Message {
    pub content: MessageContent,
    pub timestamp: Timestamp,
}

/// What a message carries.
#[derive(Debug, Clone, Copy, PartialEq, Eq, Structural)]
pub enum MessageContent {
    /// The acknowledgement of a request.
    ACK(ACK),
    /// A request that a receiver multicasts to the others.
    REQ(REQ),
    /// A request that the operator sends to one receiver.
    OPE(REQ),
}

/// The acknowledgement of a request.
#[derive(Debug, Clone, Copy, PartialEq, Eq, Structural)]
pub struct ACK {
    /// The id of the acknowledged request; unique together with `src`.
    pub req_id: Option<usize>,
    /// The receiver that accepted the operation.
    pub src: ReceiverId,
    /// The receiver that issued this acknowledgement.
    pub publisher: ReceiverId,
}

/// A request for an operation.
#[derive(Debug, Clone, Copy, PartialEq, Eq, Structural, Default)]
pub struct REQ {
    /// Tells requests apart inside a queue.
    pub id: usize,
    /// The receiver that accepted the operation.
    pub src: usize,
    /// The operation asked for.
    pub method: METHOD,
}

/// The operations of the simulated CRUD application.
#[derive(Debug, Clone, Copy, PartialEq, Eq, Structural, Default)]
pub enum METHOD {
    CREATE,
    READ,
    #[default]
    UPDATE,
    DELETE,
}

impl REQ {
    /// A request with id 0, source 0 and the default method `UPDATE`.
    pub fn default() -> (r: Self)
        ensures
            r == (REQ { id: 0, src: 0, method: METHOD::UPDATE }),
    {
        REQ { id: 0, src: 0, method: METHOD::UPDATE }
    }

    /// The acknowledgement of this request issued by `publisher`, stamped
    /// with `timestamp`.
    pub fn gen_ack(&self, publisher: ReceiverId, timestamp: Timestamp) -> (m: Message)
        ensures
            m == (Message {
                content: MessageContent::ACK(ACK { req_id: Some(self.id), src: self.src, publisher }),
                timestamp,
            }),
    {
        Message {
            content: MessageContent::ACK(ACK { req_id: Some(self.id), src: self.src, publisher }),
            timestamp,
        }
    }
}

/// The ordering key of a message: its timestamp, or 0 when it has none.
fn timestamp_key(m: &Message) -> (k: u64)
    ensures
        k == key(*m),
{
    match m.timestamp {
        Some(t) => t,
        None => 0,
    }
}

/// Returns the queue sorted by timestamp; messages with equal timestamps keep
/// their order. A queue of two or more messages must have every message
/// stamped.
pub fn sort_message_queue(queue: &MessageQueue) -> (sorted: MessageQueue)
    requires
        queue@.len() >= 2 ==> all_stamped(queue@),
    ensures
        sorted@ == sort_by_timestamp(queue@),
        sorted@.len() == queue@.len(),
        forall|i: int, j: int|
            0 <= i <= j < sorted@.len() ==> (#[trigger] sorted@[i]).timestamp.unwrap() <= (
            #[trigger] sorted@[j]).timestamp.unwrap(),
        sorted@.to_multiset() == queue@.to_multiset(),
        forall|t: u64| #[trigger] keep_where(sorted@, stamp_is(t)) == keep_where(queue@, stamp_is(t)),
{
    proof {
        lemma_sort_by_timestamps(queue@);
    }
    let n = queue.len();
    let mut out: MessageQueue = VecDeque::new();
    let mut k: usize = 0;
    while k < n
        invariant
            n == queue@.len(),
            k <= n,
            out@ == sort_by_timestamp(queue@.take(k as int)),
            out@.len() == k,
        decreases n - k,
    {
        let m = queue[k];
        let m_key = timestamp_key(&m);
        let mut j: usize = 0;
        while j < out.len() && timestamp_key(&out[j]) <= m_key
            invariant
                j <= out@.len(),
                m_key == key(m),
                forall|i: int| 0 <= i < j ==> key(#[trigger] out@[i]) <= key(m),
            decreases out@.len() - j,
        {
            j = j + 1;
        }
        proof {
            lemma_first_later_unique(out@, m, j as int);
            assert(queue@.take(k + 1).drop_last() =~= queue@.take(k as int));
            assert(queue@.take(k + 1).last() == m);
        }
        out.insert(j, m);
        k = k + 1;
    }
    assert(queue@.take(n as int) =~= queue@);
    out
}

/// A request that was executed, with the queue that remained right after it.
pub struct Execution {
    pub request: REQ,
    pub remaining: Vec<Message>,
}

impl View for Execution {
    type V = (REQ, Seq<Message>);

    open spec fn view(&self) -> (REQ, Seq<Message>) {
        (self.request, self.remaining@)
    }
}

/// A copy of the queue's messages, in order.
fn snapshot(queue: &MessageQueue) -> (v: Vec<Message>)
    ensures
        v@ == queue@,
{
    let n = queue.len();
    let mut v: Vec<Message> = Vec::new();
    let mut k: usize = 0;
    while k < n
        invariant
            n == queue@.len(),
            k <= n,
            v@ == queue@.take(k as int),
        decreases n - k,
    {
        v.push(queue[k]);
        k = k + 1;
        assert(v@ =~= queue@.take(k as int));
    }
    assert(queue@.take(n as int) =~= queue@);
    v
}

/// Whether `m` acknowledges an operation accepted by `src`.
fn acknowledges(m: &Message, src: usize) -> (b: bool)
    ensures
        b == is_ack_for(*m, src),
{
    match m.content {
        MessageContent::ACK(a) => a.src == src,
        _ => false,
    }
}

/// Erases the request message `m` and every acknowledgement for `src` from
/// the queue; the other messages stay, in their order.
fn erase_executed_messages(queue: &mut MessageQueue, m: Message, src: usize)
    ensures
        final(queue)@ == erase_executed(old(queue)@, m, src),
{
    let n = queue.len();
    let mut kept: MessageQueue = VecDeque::new();
    let mut k: usize = 0;
    while k < n
        invariant
            n == queue@.len(),
            k <= n,
            kept@ == erase_executed(queue@.take(k as int), m, src),
        decreases n - k,
    {
        let x = queue[k];
        proof {
            assert(queue@.take(k + 1).drop_last() =~= queue@.take(k as int));
            assert(queue@.take(k + 1).last() == x);
        }
        if !(x == m || acknowledges(&x, src)) {
            kept.push_back(x);
        }
        k = k + 1;
    }
    assert(queue@.take(n as int) =~= queue@);
    *queue = kept;
}

/// Executes the requests of the queue whose acknowledgements are complete.
///
/// The queue is walked in its order at the start. A request is executed when
/// the queue holds acknowledgements for its source receiver issued by
/// `my_id` and by `target_id`; the request and every acknowledgement for its
/// source are then erased, the other messages staying in their order.
/// Returns the executed requests in order, each with the queue that remained
/// right after it.
pub fn check_and_execute_task(queue: &mut MessageQueue, my_id: ReceiverId, target_id: ReceiverId) -> (executed: Vec<Execution>)
    ensures
        (final(queue)@, executed@.map_values(|e: Execution| e@)) == execute_ready_tasks(
            old(queue)@,
            my_id,
            target_id,
        ),
{
    let traversal = snapshot(queue);
    let n = traversal.len();
    let mut executed: Vec<Execution> = Vec::new();
    let mut k: usize = 0;
    proof {
        assert(executed@.map_values(|e: Execution| e@) =~= Seq::<(REQ, Seq<Message>)>::empty());
    }
    while k < n
        invariant
            n == traversal@.len(),
            traversal@ == old(queue)@,
            k <= n,
            execute_from(queue@, traversal@, k as int, executed@.map_values(|e: Execution| e@), my_id, target_id)
                == execute_ready_tasks(old(queue)@, my_id, target_id),
        decreases n - k,
    {
        let message = traversal[k];
        let ghost q = queue@;
        let ghost log = executed@.map_values(|e: Execution| e@);
        if let MessageContent::REQ(req) = message.content {
            let mut mine = false;
            let mut theirs = false;
            let len = queue.len();
            let mut j: usize = 0;
            while j < len
                invariant
                    queue@ == q,
                    len == q.len(),
                    j <= len,
                    mine == acknowledged_by(q.take(j as int), req.src, my_id),
                    theirs == acknowledged_by(q.take(j as int), req.src, target_id),
                decreases len - j,
            {
                let m = queue[j];
                let ghost before = q.take(j as int);
                let ghost after = q.take(j + 1);
                proof {
                    assert(after.drop_last() =~= before);
                    assert(after.last() == m);
                }
                if let MessageContent::ACK(ack) = m.content {
                    if req.src == ack.src {
                        if ack.publisher == my_id {
                            mine = true;
                        }
                        if ack.publisher == target_id {
                            theirs = true;
                        }
                    }
                }
                proof {
                    assert forall|p: usize| acknowledged_by(after, req.src, p) == (acknowledged_by(before, req.src, p) || is_ack_from(m, req.src, p)) by {
                        if acknowledged_by(after, req.src, p) {
                            let i = choose|i: int| 0 <= i < after.len() && is_ack_from(#[trigger] after[i], req.src, p);
                            if i < j {
                                assert(before[i] == after[i]);
                            }
                        }
                        if acknowledged_by(before, req.src, p) {
                            let i = choose|i: int| 0 <= i < before.len() && is_ack_from(#[trigger] before[i], req.src, p);
                            assert(after[i] == before[i]);
                        }
                        if is_ack_from(m, req.src, p) {
                            assert(after[j as int] == m);
                        }
                    }
                }
                j = j + 1;
            }
            proof {
                assert(q.take(len as int) =~= q);
            }
            if mine && theirs {
                erase_executed_messages(queue, message, req.src);
                let remaining = snapshot(queue);
                executed.push(Execution { request: req, remaining });
                proof {
                    assert(executed@.map_values(|e: Execution| e@) =~= log.push((req, queue@)));
                }
            }
        }
        proof {
            let (next, done) = execute_step(q, traversal@[k as int], my_id, target_id);
            assert(next == queue@);
        }
        k = k + 1;
    }
    (executed)
}

} // verus!
