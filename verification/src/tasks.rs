//! What `check_and_execute_task` does to a queue, stated over sequences.
//!
//! The queue is walked in its order at the start. Each request met on the way
//! is executed when the queue, as it stands at that moment, holds an
//! acknowledgement of an operation from the request's source receiver issued
//! by this receiver and one issued by the target receiver. Executing it erases
//! the request and every acknowledgement for its source; the other messages
//! stay, in their order.

use crate::ipc::{Message, MessageContent, ACK, REQ};
use crate::seqs::{is_subsequence, keep_where, lemma_keep_where, lemma_subsequence_refl, lemma_subsequence_trans};
use vstd::prelude::*;

verus! {

broadcast use vstd::seq_lib::group_seq_properties;

/// `m` acknowledges an operation accepted by receiver `src`.
pub open spec fn is_ack_for(m: Message, src: usize) -> bool {
    match m.content {
        MessageContent::ACK(a) => a.src == src,
        _ => false,
    }
}

/// `m` acknowledges an operation accepted by `src`, and `publisher` issued it.
pub open spec fn is_ack_from(m: Message, src: usize, publisher: usize) -> bool {
    match m.content {
        MessageContent::ACK(a) => a.src == src && a.publisher == publisher,
        _ => false,
    }
}

/// `q` holds an acknowledgement of an operation of `src` issued by `publisher`.
pub open spec fn acknowledged_by(q: Seq<Message>, src: usize, publisher: usize) -> bool {
    exists|i: int| 0 <= i < q.len() && is_ack_from(#[trigger] q[i], src, publisher)
}

/// `q` holds acknowledgements for `src` from both receivers, so that a
/// request of `src` may run.
pub open spec fn ready(q: Seq<Message>, src: usize, my_id: usize, target_id: usize) -> bool {
    acknowledged_by(q, src, my_id) && acknowledged_by(q, src, target_id)
}

/// `x` goes when the request message `m` of source `src` runs: it is `m`
/// itself or an acknowledgement for `src`.
pub open spec fn erased_with(x: Message, m: Message, src: usize) -> bool {
    x == m || is_ack_for(x, src)
}

/// `q` without the request message `m` and the acknowledgements for `src`;
/// the other messages stay, in their order.
pub open spec fn erase_executed(q: Seq<Message>, m: Message, src: usize) -> Seq<Message> {
    keep_where(q, |x: Message| !erased_with(x, m, src))
}

/// The request that `m` carries when the queue `q` allows it to run, with
/// the queue that results. Otherwise `None` and `q` unchanged.
pub open spec fn execute_step(q: Seq<Message>, m: Message, my_id: usize, target_id: usize) -> (
    Seq<Message>,
    Option<REQ>,
) {
    match m.content {
        MessageContent::REQ(req) => {
            if ready(q, req.src, my_id, target_id) {
                (erase_executed(q, m, req.src), Some(req))
            } else {
                (q, None)
            }
        },
        _ => (q, None),
    }
}

/// The walk over `traversal` from position `k` on, starting from queue `q`
/// and the executions `log` so far. Each execution is logged with the queue
/// that remains right after it.
pub open spec fn execute_from(
    q: Seq<Message>,
    traversal: Seq<Message>,
    k: int,
    log: Seq<(REQ, Seq<Message>)>,
    my_id: usize,
    target_id: usize,
) -> (Seq<Message>, Seq<(REQ, Seq<Message>)>)
    decreases traversal.len() - k,
{
    if k < 0 || k >= traversal.len() {
        (q, log)
    } else {
        let (next, done) = execute_step(q, traversal[k], my_id, target_id);
        let next_log = match done {
            Some(req) => log.push((req, next)),
            None => log,
        };
        execute_from(next, traversal, k + 1, next_log, my_id, target_id)
    }
}

/// The queue left by `check_and_execute_task` on `q`, and the requests it
/// executes, each with the queue that remains right after it.
pub open spec fn execute_ready_tasks(q: Seq<Message>, my_id: usize, target_id: usize) -> (
    Seq<Message>,
    Seq<(REQ, Seq<Message>)>,
) {
    execute_from(q, q, 0, Seq::empty(), my_id, target_id)
}

/// Law: executing a request erases exactly the request message and the
/// acknowledgements for its source: every other message stays as often as
/// it was there, and in its order.
pub proof fn lemma_erase_exact(q: Seq<Message>, m: Message, src: usize)
    ensures
        is_subsequence(erase_executed(q, m, src), q),
        forall|x: Message|
            #[trigger] erase_executed(q, m, src).to_multiset().count(x) == if erased_with(x, m, src) {
                0
            } else {
                q.to_multiset().count(x)
            },
        forall|x: Message|
            #[trigger] erase_executed(q, m, src).contains(x) <==> (q.contains(x) && !erased_with(x, m, src)),
{
    lemma_keep_where(q, |x: Message| !erased_with(x, m, src));
}

/// An acknowledgement found in a subsequence is found in the larger sequence.
proof fn lemma_sub_acknowledged(small: Seq<Message>, big: Seq<Message>, src: usize, publisher: usize)
    requires
        is_subsequence(small, big),
        acknowledged_by(small, src, publisher),
    ensures
        acknowledged_by(big, src, publisher),
{
    let i = choose|i: int| 0 <= i < small.len() && is_ack_from(#[trigger] small[i], src, publisher);
    crate::seqs::lemma_subsequence_contains(small, big, i);
    let j = choose|j: int| 0 <= j < big.len() && big[j] == small[i];
    assert(is_ack_from(big[j], src, publisher));
}

/// The starting queue `q0` justifies an execution: it holds a message with
/// that request, and acknowledgements for the request's source from both
/// receivers; and the queue that remained after it is a subsequence of `q0`.
pub open spec fn justified_by(q0: Seq<Message>, entry: (REQ, Seq<Message>), my_id: usize, target_id: usize) -> bool {
    &&& exists|i: int| 0 <= i < q0.len() && (#[trigger] q0[i]).content == MessageContent::REQ(entry.0)
    &&& acknowledged_by(q0, entry.0.src, my_id)
    &&& acknowledged_by(q0, entry.0.src, target_id)
    &&& is_subsequence(entry.1, q0)
}

proof fn lemma_execute_from_justified(
    q0: Seq<Message>,
    q: Seq<Message>,
    k: int,
    log: Seq<(REQ, Seq<Message>)>,
    my_id: usize,
    target_id: usize,
)
    requires
        is_subsequence(q, q0),
        forall|i: int| 0 <= i < log.len() ==> justified_by(q0, #[trigger] log[i], my_id, target_id),
    ensures
        is_subsequence(execute_from(q, q0, k, log, my_id, target_id).0, q0),
        forall|i: int|
            0 <= i < execute_from(q, q0, k, log, my_id, target_id).1.len() ==> justified_by(
                q0,
                #[trigger] execute_from(q, q0, k, log, my_id, target_id).1[i],
                my_id,
                target_id,
            ),
    decreases q0.len() - k,
{
    if 0 <= k < q0.len() {
        let m = q0[k];
        let (next, done) = execute_step(q, m, my_id, target_id);
        let next_log = match done {
            Some(req) => log.push((req, next)),
            None => log,
        };
        if let MessageContent::REQ(req) = m.content {
            if ready(q, req.src, my_id, target_id) {
                lemma_erase_exact(q, m, req.src);
                lemma_subsequence_trans(next, q, q0);
                lemma_sub_acknowledged(q, q0, req.src, my_id);
                lemma_sub_acknowledged(q, q0, req.src, target_id);
                assert(q0[k].content == MessageContent::REQ(req));
                assert(justified_by(q0, (req, next), my_id, target_id));
                assert forall|i: int| 0 <= i < next_log.len() implies justified_by(q0, #[trigger] next_log[i], my_id, target_id) by {
                    if i < log.len() {
                        assert(next_log[i] == log[i]);
                    }
                }
            }
        }
        lemma_execute_from_justified(q0, next, k + 1, next_log, my_id, target_id);
    }
}

/// Law: a request is executed only when the queue it was found in held the
/// request together with acknowledgements for its source from both this
/// receiver and the target receiver; and the task check only ever erases:
/// what remains, after every execution and at the end, is a subsequence of
/// the queue it started from.
pub proof fn lemma_execution_is_justified(q: Seq<Message>, my_id: usize, target_id: usize)
    ensures
        is_subsequence(execute_ready_tasks(q, my_id, target_id).0, q),
        forall|i: int|
            0 <= i < execute_ready_tasks(q, my_id, target_id).1.len() ==> justified_by(
                q,
                #[trigger] execute_ready_tasks(q, my_id, target_id).1[i],
                my_id,
                target_id,
            ),
{
    lemma_subsequence_refl(q);
    lemma_execute_from_justified(q, q, 0, Seq::empty(), my_id, target_id);
}

proof fn lemma_execute_from_without_requests(
    q: Seq<Message>,
    t: Seq<Message>,
    k: int,
    log: Seq<(REQ, Seq<Message>)>,
    my_id: usize,
    target_id: usize,
)
    requires
        forall|i: int| 0 <= i < t.len() ==> !((#[trigger] t[i]).content is REQ),
    ensures
        execute_from(q, t, k, log, my_id, target_id) == (q, log),
    decreases t.len() - k,
{
    if 0 <= k < t.len() {
        assert(!(t[k].content is REQ));
        lemma_execute_from_without_requests(q, t, k + 1, log, my_id, target_id);
    }
}

/// Law: a queue that holds no request is left unchanged, and nothing is
/// executed.
pub proof fn lemma_no_request_no_change(q: Seq<Message>, my_id: usize, target_id: usize)
    requires
        forall|i: int| 0 <= i < q.len() ==> !((#[trigger] q[i]).content is REQ),
    ensures
        execute_ready_tasks(q, my_id, target_id) == (q, Seq::<(REQ, Seq<Message>)>::empty()),
{
    lemma_execute_from_without_requests(q, q, 0, Seq::empty(), my_id, target_id);
}

/// No acknowledgement for `src` is in `q`.
pub open spec fn no_ack_for(q: Seq<Message>, src: usize) -> bool {
    forall|i: int| 0 <= i < q.len() ==> !is_ack_for(#[trigger] q[i], src)
}

proof fn lemma_erase_clears(q: Seq<Message>, m: Message, src: usize)
    ensures
        no_ack_for(erase_executed(q, m, src), src),
        !erase_executed(q, m, src).contains(m),
{
    lemma_erase_exact(q, m, src);
    let r = erase_executed(q, m, src);
    assert forall|i: int| 0 <= i < r.len() implies !is_ack_for(#[trigger] r[i], src) by {
        assert(r.contains(r[i]));
    }
}

proof fn lemma_execute_from_clears(
    q: Seq<Message>,
    t: Seq<Message>,
    k: int,
    log: Seq<(REQ, Seq<Message>)>,
    my_id: usize,
    target_id: usize,
)
    requires
        forall|i: int| 0 <= i < log.len() ==> no_ack_for((#[trigger] log[i]).1, log[i].0.src),
    ensures
        forall|i: int|
            0 <= i < execute_from(q, t, k, log, my_id, target_id).1.len() ==> no_ack_for(
                (#[trigger] execute_from(q, t, k, log, my_id, target_id).1[i]).1,
                execute_from(q, t, k, log, my_id, target_id).1[i].0.src,
            ),
    decreases t.len() - k,
{
    if 0 <= k < t.len() {
        let m = t[k];
        let (next, done) = execute_step(q, m, my_id, target_id);
        let next_log = match done {
            Some(req) => log.push((req, next)),
            None => log,
        };
        if let MessageContent::REQ(req) = m.content {
            if ready(q, req.src, my_id, target_id) {
                lemma_erase_clears(q, m, req.src);
                assert forall|i: int| 0 <= i < next_log.len() implies no_ack_for((#[trigger] next_log[i]).1, next_log[i].0.src) by {
                    if i < log.len() {
                        assert(next_log[i] == log[i]);
                    }
                }
            }
        }
        lemma_execute_from_clears(next, t, k + 1, next_log, my_id, target_id);
    }
}

/// Law: executing a request erases every acknowledgement for its source:
/// right after each execution no such acknowledgement remains in the queue.
pub proof fn lemma_execution_clears_acks(q: Seq<Message>, my_id: usize, target_id: usize)
    ensures
        forall|i: int|
            0 <= i < execute_ready_tasks(q, my_id, target_id).1.len() ==> no_ack_for(
                (#[trigger] execute_ready_tasks(q, my_id, target_id).1[i]).1,
                execute_ready_tasks(q, my_id, target_id).1[i].0.src,
            ),
{
    lemma_execute_from_clears(q, q, 0, Seq::empty(), my_id, target_id);
}

/// The message `m`, if it is a request, cannot run on queue `q`.
pub open spec fn blocked(q: Seq<Message>, m: Message, my_id: usize, target_id: usize) -> bool {
    match m.content {
        MessageContent::REQ(req) => !ready(q, req.src, my_id, target_id),
        _ => true,
    }
}

proof fn lemma_blocked_in_subsequence(small: Seq<Message>, big: Seq<Message>, m: Message, my_id: usize, target_id: usize)
    requires
        is_subsequence(small, big),
        blocked(big, m, my_id, target_id),
    ensures
        blocked(small, m, my_id, target_id),
{
    if let MessageContent::REQ(req) = m.content {
        if acknowledged_by(small, req.src, my_id) {
            lemma_sub_acknowledged(small, big, req.src, my_id);
        }
        if acknowledged_by(small, req.src, target_id) {
            lemma_sub_acknowledged(small, big, req.src, target_id);
        }
    }
}

proof fn lemma_execute_from_settles(
    q: Seq<Message>,
    t: Seq<Message>,
    k: int,
    log: Seq<(REQ, Seq<Message>)>,
    my_id: usize,
    target_id: usize,
)
    requires
        0 <= k <= t.len(),
        forall|j: int| 0 <= j < k ==> blocked(q, #[trigger] t[j], my_id, target_id),
    ensures
        forall|j: int| 0 <= j < t.len() ==> blocked(execute_from(q, t, k, log, my_id, target_id).0, #[trigger] t[j], my_id, target_id),
    decreases t.len() - k,
{
    if k < t.len() {
        let m = t[k];
        let (next, done) = execute_step(q, m, my_id, target_id);
        let next_log = match done {
            Some(req) => log.push((req, next)),
            None => log,
        };
        if let MessageContent::REQ(req) = m.content {
            if ready(q, req.src, my_id, target_id) {
                lemma_erase_exact(q, m, req.src);
                lemma_erase_clears(q, m, req.src);
                assert forall|j: int| 0 <= j <= k implies blocked(next, #[trigger] t[j], my_id, target_id) by {
                    if j < k {
                        lemma_blocked_in_subsequence(next, q, t[j], my_id, target_id);
                    } else {
                        if acknowledged_by(next, req.src, my_id) {
                            let i = choose|i: int| 0 <= i < next.len() && is_ack_from(#[trigger] next[i], req.src, my_id);
                            assert(!is_ack_for(next[i], req.src));
                        }
                    }
                }
            }
        }
        lemma_execute_from_settles(next, t, k + 1, next_log, my_id, target_id);
    }
}

proof fn lemma_execute_from_all_blocked(
    q: Seq<Message>,
    t: Seq<Message>,
    k: int,
    log: Seq<(REQ, Seq<Message>)>,
    my_id: usize,
    target_id: usize,
)
    requires
        forall|j: int| 0 <= j < t.len() ==> blocked(q, #[trigger] t[j], my_id, target_id),
    ensures
        execute_from(q, t, k, log, my_id, target_id) == (q, log),
    decreases t.len() - k,
{
    if 0 <= k < t.len() {
        assert(blocked(q, t[k], my_id, target_id));
        lemma_execute_from_all_blocked(q, t, k + 1, log, my_id, target_id);
    }
}

/// Law: the task check settles the queue: no request left in it can run, so
/// checking again changes nothing and executes nothing.
pub proof fn lemma_check_idempotent(q: Seq<Message>, my_id: usize, target_id: usize)
    ensures
        ({
            let q1 = execute_ready_tasks(q, my_id, target_id).0;
            &&& forall|i: int| 0 <= i < q1.len() ==> blocked(q1, #[trigger] q1[i], my_id, target_id)
            &&& execute_ready_tasks(q1, my_id, target_id) == (q1, Seq::<(REQ, Seq<Message>)>::empty())
        }),
{
    let q1 = execute_ready_tasks(q, my_id, target_id).0;
    lemma_execute_from_settles(q, q, 0, Seq::empty(), my_id, target_id);
    lemma_execution_is_justified(q, my_id, target_id);
    assert forall|i: int| 0 <= i < q1.len() implies blocked(q1, #[trigger] q1[i], my_id, target_id) by {
        crate::seqs::lemma_subsequence_contains(q1, q, i);
        let j = choose|j: int| 0 <= j < q.len() && q[j] == q1[i];
        assert(blocked(q1, q[j], my_id, target_id));
    }
    lemma_execute_from_all_blocked(q1, q1, 0, Seq::empty(), my_id, target_id);
}

/// The walk only appends to the log of executions.
proof fn lemma_execute_from_extends(
    q: Seq<Message>,
    t: Seq<Message>,
    k: int,
    log: Seq<(REQ, Seq<Message>)>,
    my_id: usize,
    target_id: usize,
)
    ensures
        execute_from(q, t, k, log, my_id, target_id).1.len() >= log.len(),
        forall|i: int| 0 <= i < log.len() ==> execute_from(q, t, k, log, my_id, target_id).1[i] == log[i],
    decreases t.len() - k,
{
    if 0 <= k < t.len() {
        let (next, done) = execute_step(q, t[k], my_id, target_id);
        let next_log = match done {
            Some(req) => log.push((req, next)),
            None => log,
        };
        lemma_execute_from_extends(next, t, k + 1, next_log, my_id, target_id);
        assert forall|i: int| 0 <= i < log.len() implies execute_from(q, t, k, log, my_id, target_id).1[i] == log[i] by {
            assert(next_log[i] == log[i]);
        }
    }
}

/// Law: a request at the head of the queue whose acknowledgements, as
/// `gen_ack` makes them, from this receiver and from the target receiver are
/// both in the queue is executed, and first.
pub proof fn lemma_acknowledged_request_runs(
    req: REQ,
    timestamp: Option<u64>,
    rest: Seq<Message>,
    my_id: usize,
    target_id: usize,
    my_stamp: Option<u64>,
    target_stamp: Option<u64>,
)
    requires
        rest.contains(
            Message {
                content: MessageContent::ACK(ACK { req_id: Some(req.id), src: req.src, publisher: my_id }),
                timestamp: my_stamp,
            },
        ),
        rest.contains(
            Message {
                content: MessageContent::ACK(ACK { req_id: Some(req.id), src: req.src, publisher: target_id }),
                timestamp: target_stamp,
            },
        ),
    ensures
        ({
            let q = seq![Message { content: MessageContent::REQ(req), timestamp }] + rest;
            let log = execute_ready_tasks(q, my_id, target_id).1;
            log.len() > 0 && log[0].0 == req
        }),
{
    let m = Message { content: MessageContent::REQ(req), timestamp };
    let q = seq![m] + rest;
    let mine = Message {
        content: MessageContent::ACK(ACK { req_id: Some(req.id), src: req.src, publisher: my_id }),
        timestamp: my_stamp,
    };
    let theirs = Message {
        content: MessageContent::ACK(ACK { req_id: Some(req.id), src: req.src, publisher: target_id }),
        timestamp: target_stamp,
    };
    let a = choose|a: int| 0 <= a < rest.len() && rest[a] == mine;
    let b = choose|b: int| 0 <= b < rest.len() && rest[b] == theirs;
    assert(q[a + 1] == mine);
    assert(q[b + 1] == theirs);
    assert(acknowledged_by(q, req.src, my_id));
    assert(acknowledged_by(q, req.src, target_id));
    assert(q[0] == m);
    let (next, done) = execute_step(q, q[0], my_id, target_id);
    assert(done == Some(req));
    let first = Seq::<(REQ, Seq<Message>)>::empty().push((req, next));
    assert(execute_ready_tasks(q, my_id, target_id) == execute_from(next, q, 1, first, my_id, target_id));
    lemma_execute_from_extends(next, q, 1, first, my_id, target_id);
    assert(first[0] == (req, next));
}

/// Law: one step of the check, in terms of the queue. A request runs exactly
/// when the queue holds an acknowledgement for its source from this receiver
/// and one from the target receiver; running it erases that request message
/// and the acknowledgements for its source, and every other message stays,
/// as often as it was there and in its order. Anything else changes nothing.
pub proof fn lemma_step_exact(q: Seq<Message>, m: Message, my_id: usize, target_id: usize)
    ensures
        ({
            let (next, done) = execute_step(q, m, my_id, target_id);
            match m.content {
                MessageContent::REQ(req) => if acknowledged_by(q, req.src, my_id) && acknowledged_by(
                    q,
                    req.src,
                    target_id,
                ) {
                    &&& done == Some(req)
                    &&& is_subsequence(next, q)
                    &&& forall|x: Message|
                        #[trigger] next.to_multiset().count(x) == if x == m || match x.content {
                            MessageContent::ACK(a) => a.src == req.src,
                            _ => false,
                        } {
                            0
                        } else {
                            q.to_multiset().count(x)
                        }
                } else {
                    done == None::<REQ> && next == q
                },
                _ => done == None::<REQ> && next == q,
            }
        }),
{
    if let MessageContent::REQ(req) = m.content {
        if acknowledged_by(q, req.src, my_id) && acknowledged_by(q, req.src, target_id) {
            lemma_erase_exact(q, m, req.src);
        }
    }
}

/// A message that is not an acknowledgement is either still in `q` as often
/// as in `q0`, or gone because a request equal to its own was executed.
pub open spec fn accounted_for(q0: Seq<Message>, q: Seq<Message>, log: Seq<(REQ, Seq<Message>)>, x: Message) -> bool {
    ||| q.to_multiset().count(x) == q0.to_multiset().count(x)
    ||| q.to_multiset().count(x) == 0 && match x.content {
        MessageContent::REQ(r) => exists|i: int| 0 <= i < log.len() && (#[trigger] log[i]).0 == r,
        _ => false,
    }
}

proof fn lemma_execute_from_accounts(
    q0: Seq<Message>,
    q: Seq<Message>,
    t: Seq<Message>,
    k: int,
    log: Seq<(REQ, Seq<Message>)>,
    my_id: usize,
    target_id: usize,
)
    requires
        forall|x: Message| !(x.content is ACK) ==> #[trigger] accounted_for(q0, q, log, x),
    ensures
        forall|x: Message|
            !(x.content is ACK) ==> #[trigger] accounted_for(
                q0,
                execute_from(q, t, k, log, my_id, target_id).0,
                execute_from(q, t, k, log, my_id, target_id).1,
                x,
            ),
    decreases t.len() - k,
{
    if 0 <= k < t.len() {
        let m = t[k];
        let (next, done) = execute_step(q, m, my_id, target_id);
        let next_log = match done {
            Some(req) => log.push((req, next)),
            None => log,
        };
        if let MessageContent::REQ(req) = m.content {
            if ready(q, req.src, my_id, target_id) {
                lemma_step_exact(q, m, my_id, target_id);
                assert forall|x: Message| !(x.content is ACK) implies #[trigger] accounted_for(q0, next, next_log, x) by {
                    assert(next_log[log.len() as int].0 == req);
                    if x == m {
                        assert(next.to_multiset().count(x) == 0);
                    } else {
                        assert(next.to_multiset().count(x) == q.to_multiset().count(x));
                        assert(accounted_for(q0, q, log, x));
                        if q.to_multiset().count(x) != q0.to_multiset().count(x) {
                            if let MessageContent::REQ(r) = x.content {
                                let i = choose|i: int| 0 <= i < log.len() && (#[trigger] log[i]).0 == r;
                                assert(next_log[i] == log[i]);
                            }
                        }
                    }
                }
            }
        }
        lemma_execute_from_accounts(q0, next, t, k + 1, next_log, my_id, target_id);
        assert(execute_from(q, t, k, log, my_id, target_id) == execute_from(next, t, k + 1, next_log, my_id, target_id));
    }
}

/// Law: the check takes away no message but executed requests and
/// acknowledgements. Every request or operator message of the starting queue
/// is still there as often as before, unless it is gone and a request equal
/// to its own is among the executed ones.
pub proof fn lemma_only_executed_requests_leave(q: Seq<Message>, my_id: usize, target_id: usize)
    ensures
        forall|x: Message|
            !(x.content is ACK) ==> #[trigger] accounted_for(
                q,
                execute_ready_tasks(q, my_id, target_id).0,
                execute_ready_tasks(q, my_id, target_id).1,
                x,
            ),
{
    lemma_execute_from_accounts(q, q, q, 0, Seq::empty(), my_id, target_id);
}

} // verus!
