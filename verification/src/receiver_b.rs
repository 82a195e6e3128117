//! The task check of receiver B in the two-receiver variant: a request is
//! executed once the queue holds acknowledgements for its source from both
//! A and B, and the request and those acknowledgements are then erased.

use crate::clock::LogicClock;
use crate::ipc_ab::{Message, Receiver, REQ};
use crate::seqs::{is_subsequence, keep_where, lemma_keep_where, lemma_subsequence_refl, lemma_subsequence_trans};
use std::collections::VecDeque;
use vstd::prelude::*;

verus! {

broadcast use vstd::seq_lib::group_seq_properties;

/// Reads the clock as a message timestamp.
pub fn get_current_timestamp(value: &LogicClock) -> (t: Option<u64>)
    ensures
        t == Some(value.clock),
{
    Some(value.clock)
}

/// `m` acknowledges an operation accepted by `src`.
pub open spec fn is_ack_for(m: Message, src: Receiver) -> bool {
    match m {
        Message::ACK(a) => a.src == src,
        _ => false,
    }
}

/// `m` acknowledges an operation accepted by `src`, and `publisher` issued it.
pub open spec fn is_ack_from(m: Message, src: Receiver, publisher: Receiver) -> bool {
    match m {
        Message::ACK(a) => a.src == src && a.publisher == publisher,
        _ => false,
    }
}

/// `q` holds an acknowledgement of an operation of `src` issued by `publisher`.
pub open spec fn acknowledged_by(q: Seq<Message>, src: Receiver, publisher: Receiver) -> bool {
    exists|i: int| 0 <= i < q.len() && is_ack_from(#[trigger] q[i], src, publisher)
}

/// `q` holds acknowledgements for `src` from both A and B.
pub open spec fn ready(q: Seq<Message>, src: Receiver) -> bool {
    acknowledged_by(q, src, Receiver::A) && acknowledged_by(q, src, Receiver::B)
}

/// `x` goes when the request message `m` of source `src` runs.
pub open spec fn erased_with(x: Message, m: Message, src: Receiver) -> bool {
    x == m || is_ack_for(x, src)
}

/// `q` without the request message `m` and the acknowledgements for `src`;
/// the other messages stay, in their order.
pub open spec fn erase_executed(q: Seq<Message>, m: Message, src: Receiver) -> Seq<Message> {
    keep_where(q, |x: Message| !erased_with(x, m, src))
}

/// The message `m`, if it is a request, cannot run on queue `q`.
pub open spec fn blocked(q: Seq<Message>, m: Message) -> bool {
    match m {
        Message::REQ(req) => !ready(q, req.src),
        _ => true,
    }
}

/// The walk over `buf` from position `k` on, starting from queue `q` and the
/// executed requests `log`.
pub open spec fn execute_from(q: Seq<Message>, buf: Seq<Message>, k: int, log: Seq<REQ>) -> (
    Seq<Message>,
    Seq<REQ>,
)
    decreases buf.len() - k,
{
    if k < 0 || k >= buf.len() {
        (q, log)
    } else if !blocked(q, buf[k]) {
        let req = buf[k]->REQ_0;
        execute_from(erase_executed(q, buf[k], req.src), buf, k + 1, log.push(req))
    } else {
        execute_from(q, buf, k + 1, log)
    }
}

/// The queue left by `check_and_execute_task` on `q` and the requests it
/// executes.
pub open spec fn execute_ready_tasks(q: Seq<Message>) -> (Seq<Message>, Seq<REQ>) {
    execute_from(q, q, 0, Seq::empty())
}

/// A copy of the queue's messages, in order.
fn snapshot(queue: &VecDeque<Message>) -> (v: Vec<Message>)
    ensures
        v@ == queue@,
{
    let n = queue.len();
    let mut v: Vec<Message> = Vec::new();
    let mut k: usize = 0;
    while k < n
        invariant
            n == queue@.len(),
            k <= n,
            v@ == queue@.take(k as int),
        decreases n - k,
    {
        v.push(queue[k]);
        k = k + 1;
        assert(v@ =~= queue@.take(k as int));
    }
    assert(queue@.take(n as int) =~= queue@);
    v
}

/// Whether `m` acknowledges an operation accepted by `src`.
fn acknowledges(m: &Message, src: Receiver) -> (b: bool)
    ensures
        b == is_ack_for(*m, src),
{
    match m {
        Message::ACK(a) => a.src == src,
        _ => false,
    }
}

/// Erases the request message `m` and every acknowledgement for `src` from
/// the queue; the other messages stay, in their order.
fn erase_executed_messages(queue: &mut VecDeque<Message>, m: Message, src: Receiver)
    ensures
        final(queue)@ == erase_executed(old(queue)@, m, src),
{
    let n = queue.len();
    let mut kept: VecDeque<Message> = VecDeque::new();
    let mut k: usize = 0;
    while k < n
        invariant
            n == queue@.len(),
            k <= n,
            kept@ == erase_executed(queue@.take(k as int), m, src),
        decreases n - k,
    {
        let x = queue[k];
        proof {
            assert(queue@.take(k + 1).drop_last() =~= queue@.take(k as int));
            assert(queue@.take(k + 1).last() == x);
        }
        if !(x == m || acknowledges(&x, src)) {
            kept.push_back(x);
        }
        k = k + 1;
    }
    assert(queue@.take(n as int) =~= queue@);
    *queue = kept;
}

/// Executes the requests whose acknowledgements from A and B are both in the
/// queue, walking the queue in its order at the start; each executed request
/// and the acknowledgements for its source are erased. Returns the executed
/// requests in order.
pub fn check_and_execute_task(queue: &mut VecDeque<Message>) -> (executed: Vec<REQ>)
    ensures
        (final(queue)@, executed@) == execute_ready_tasks(old(queue)@),
{
    let traversal_buf = snapshot(queue);
    let n = traversal_buf.len();
    let mut executed: Vec<REQ> = Vec::new();
    let mut i: usize = 0;
    while i < n
        invariant
            n == traversal_buf@.len(),
            traversal_buf@ == old(queue)@,
            i <= n,
            execute_from(queue@, traversal_buf@, i as int, executed@) == execute_ready_tasks(old(queue)@),
        decreases n - i,
    {
        let mes = traversal_buf[i];
        let ghost q = queue@;
        if let Message::REQ(req) = mes {
            let mut seen_a = false;
            let mut seen_b = false;
            let len = queue.len();
            let mut j: usize = 0;
            while j < len
                invariant
                    queue@ == q,
                    len == q.len(),
                    j <= len,
                    seen_a == acknowledged_by(q.take(j as int), req.src, Receiver::A),
                    seen_b == acknowledged_by(q.take(j as int), req.src, Receiver::B),
                decreases len - j,
            {
                let m = queue[j];
                let ghost before = q.take(j as int);
                let ghost after = q.take(j + 1);
                proof {
                    assert(after.drop_last() =~= before);
                    assert(after.last() == m);
                }
                if let Message::ACK(ack) = m {
                    if req.src == ack.src {
                        if ack.publisher == Receiver::A {
                            seen_a = true;
                        }
                        if ack.publisher == Receiver::B {
                            seen_b = true;
                        }
                    }
                }
                proof {
                    assert forall|p: Receiver| acknowledged_by(after, req.src, p) == (acknowledged_by(before, req.src, p) || is_ack_from(m, req.src, p)) by {
                        if acknowledged_by(after, req.src, p) {
                            let x = choose|x: int| 0 <= x < after.len() && is_ack_from(#[trigger] after[x], req.src, p);
                            if x < j {
                                assert(before[x] == after[x]);
                            }
                        }
                        if acknowledged_by(before, req.src, p) {
                            let x = choose|x: int| 0 <= x < before.len() && is_ack_from(#[trigger] before[x], req.src, p);
                            assert(after[x] == before[x]);
                        }
                        if is_ack_from(m, req.src, p) {
                            assert(after[j as int] == m);
                        }
                    }
                }
                j = j + 1;
            }
            proof {
                assert(q.take(len as int) =~= q);
            }
            if seen_a && seen_b {
                erase_executed_messages(queue, mes, req.src);
                executed.push(req);
            }
        }
        i = i + 1;
    }
    executed
}

/// Law: executing a request erases exactly the request message and the
/// acknowledgements for its source: every other message stays as often as
/// it was there, and in its order.
pub proof fn lemma_erase_exact(q: Seq<Message>, m: Message, src: Receiver)
    ensures
        is_subsequence(erase_executed(q, m, src), q),
        forall|x: Message|
            #[trigger] erase_executed(q, m, src).to_multiset().count(x) == if erased_with(x, m, src) {
                0
            } else {
                q.to_multiset().count(x)
            },
        forall|x: Message|
            #[trigger] erase_executed(q, m, src).contains(x) <==> (q.contains(x) && !erased_with(x, m, src)),
{
    lemma_keep_where(q, |x: Message| !erased_with(x, m, src));
}

proof fn lemma_sub_acknowledged(small: Seq<Message>, big: Seq<Message>, src: Receiver, publisher: Receiver)
    requires
        is_subsequence(small, big),
        acknowledged_by(small, src, publisher),
    ensures
        acknowledged_by(big, src, publisher),
{
    let i = choose|i: int| 0 <= i < small.len() && is_ack_from(#[trigger] small[i], src, publisher);
    crate::seqs::lemma_subsequence_contains(small, big, i);
    let j = choose|j: int| 0 <= j < big.len() && big[j] == small[i];
    assert(is_ack_from(big[j], src, publisher));
}

proof fn lemma_blocked_in_subsequence(small: Seq<Message>, big: Seq<Message>, m: Message)
    requires
        is_subsequence(small, big),
        blocked(big, m),
    ensures
        blocked(small, m),
{
    if let Message::REQ(req) = m {
        if acknowledged_by(small, req.src, Receiver::A) {
            lemma_sub_acknowledged(small, big, req.src, Receiver::A);
        }
        if acknowledged_by(small, req.src, Receiver::B) {
            lemma_sub_acknowledged(small, big, req.src, Receiver::B);
        }
    }
}

/// After erasing for `src`, no request of `src` can run.
proof fn lemma_erase_blocks(q: Seq<Message>, m: Message, src: Receiver)
    ensures
        !ready(erase_executed(q, m, src), src),
        is_subsequence(erase_executed(q, m, src), q),
{
    lemma_erase_exact(q, m, src);
    let r = erase_executed(q, m, src);
    if acknowledged_by(r, src, Receiver::A) {
        let i = choose|i: int| 0 <= i < r.len() && is_ack_from(#[trigger] r[i], src, Receiver::A);
        assert(r.contains(r[i]));
    }
}

proof fn lemma_execute_from_settles(q0: Seq<Message>, q: Seq<Message>, k: int, log: Seq<REQ>)
    requires
        0 <= k <= q0.len(),
        is_subsequence(q, q0),
        forall|j: int| 0 <= j < k ==> blocked(q, #[trigger] q0[j]),
    ensures
        is_subsequence(execute_from(q, q0, k, log).0, q0),
        forall|j: int| 0 <= j < q0.len() ==> blocked(execute_from(q, q0, k, log).0, #[trigger] q0[j]),
    decreases q0.len() - k,
{
    if k < q0.len() {
        if !blocked(q, q0[k]) {
            let req = q0[k]->REQ_0;
            let next = erase_executed(q, q0[k], req.src);
            lemma_erase_blocks(q, q0[k], req.src);
            lemma_subsequence_trans(next, q, q0);
            assert forall|j: int| 0 <= j <= k implies blocked(next, #[trigger] q0[j]) by {
                if j < k {
                    lemma_blocked_in_subsequence(next, q, q0[j]);
                }
            }
            lemma_execute_from_settles(q0, next, k + 1, log.push(req));
        } else {
            lemma_execute_from_settles(q0, q, k + 1, log);
        }
    }
}

proof fn lemma_execute_from_all_blocked(q: Seq<Message>, buf: Seq<Message>, k: int, log: Seq<REQ>)
    requires
        forall|j: int| 0 <= j < buf.len() ==> blocked(q, #[trigger] buf[j]),
    ensures
        execute_from(q, buf, k, log) == (q, log),
    decreases buf.len() - k,
{
    if 0 <= k < buf.len() {
        assert(blocked(q, buf[k]));
        lemma_execute_from_all_blocked(q, buf, k + 1, log);
    }
}

/// Law: the task check only erases, so what it leaves is a subsequence of
/// the queue it started from; and it settles the queue: no request left can
/// run, so checking again changes nothing and executes nothing.
pub proof fn lemma_check_settles(q: Seq<Message>)
    ensures
        is_subsequence(execute_ready_tasks(q).0, q),
        ({
            let q1 = execute_ready_tasks(q).0;
            &&& forall|i: int| 0 <= i < q1.len() ==> blocked(q1, #[trigger] q1[i])
            &&& execute_ready_tasks(q1) == (q1, Seq::<REQ>::empty())
        }),
{
    let q1 = execute_ready_tasks(q).0;
    lemma_subsequence_refl(q);
    lemma_execute_from_settles(q, q, 0, Seq::empty());
    assert forall|i: int| 0 <= i < q1.len() implies blocked(q1, #[trigger] q1[i]) by {
        crate::seqs::lemma_subsequence_contains(q1, q, i);
        let j = choose|j: int| 0 <= j < q.len() && q[j] == q1[i];
        assert(blocked(q1, q[j]));
    }
    lemma_execute_from_all_blocked(q1, q1, 0, Seq::empty());
}

proof fn lemma_execute_from_without_requests(q: Seq<Message>, buf: Seq<Message>, k: int, log: Seq<REQ>)
    requires
        forall|i: int| 0 <= i < buf.len() ==> !((#[trigger] buf[i]) is REQ),
    ensures
        execute_from(q, buf, k, log) == (q, log),
    decreases buf.len() - k,
{
    if 0 <= k < buf.len() {
        assert(!(buf[k] is REQ));
        lemma_execute_from_without_requests(q, buf, k + 1, log);
    }
}

/// Law: a queue that holds no request is left unchanged, and nothing is
/// executed.
pub proof fn lemma_no_request_no_change(q: Seq<Message>)
    requires
        forall|i: int| 0 <= i < q.len() ==> !((#[trigger] q[i]) is REQ),
    ensures
        execute_ready_tasks(q) == (q, Seq::<REQ>::empty()),
{
    lemma_execute_from_without_requests(q, q, 0, Seq::empty());
}

/// Law: one step of the check, in terms of the queue. A request runs exactly
/// when the queue holds an acknowledgement for its source from A and one
/// from B; running it erases that request message and the acknowledgements
/// for its source, and every other message stays, as often as it was there
/// and in its order. Anything else changes nothing.
pub proof fn lemma_step_exact(q: Seq<Message>, buf: Seq<Message>, k: int, log: Seq<REQ>)
    requires
        0 <= k < buf.len(),
    ensures
        match buf[k] {
            Message::REQ(req) => if acknowledged_by(q, req.src, Receiver::A) && acknowledged_by(
                q,
                req.src,
                Receiver::B,
            ) {
                let next = erase_executed(q, buf[k], req.src);
                &&& execute_from(q, buf, k, log) == execute_from(next, buf, k + 1, log.push(req))
                &&& is_subsequence(next, q)
                &&& forall|x: Message|
                    #[trigger] next.to_multiset().count(x) == if x == buf[k] || match x {
                        Message::ACK(a) => a.src == req.src,
                        _ => false,
                    } {
                        0
                    } else {
                        q.to_multiset().count(x)
                    }
            } else {
                execute_from(q, buf, k, log) == execute_from(q, buf, k + 1, log)
            },
            _ => execute_from(q, buf, k, log) == execute_from(q, buf, k + 1, log),
        },
{
    if let Message::REQ(req) = buf[k] {
        lemma_erase_exact(q, buf[k], req.src);
    }
}

/// A message that is not an acknowledgement is either still in `q` as often
/// as in `q0`, or gone because a request equal to its own was executed.
pub open spec fn accounted_for(q0: Seq<Message>, q: Seq<Message>, log: Seq<REQ>, x: Message) -> bool {
    ||| q.to_multiset().count(x) == q0.to_multiset().count(x)
    ||| q.to_multiset().count(x) == 0 && match x {
        Message::REQ(r) => log.contains(r),
        _ => false,
    }
}

proof fn lemma_execute_from_accounts(q0: Seq<Message>, q: Seq<Message>, k: int, log: Seq<REQ>)
    requires
        0 <= k,
        is_subsequence(q, q0),
        forall|i: int| 0 <= i < log.len() ==> acknowledged_by(q0, (#[trigger] log[i]).src, Receiver::A)
            && acknowledged_by(q0, log[i].src, Receiver::B),
        forall|x: Message| !(x is ACK) ==> #[trigger] accounted_for(q0, q, log, x),
    ensures
        ({
            let (q1, done) = execute_from(q, q0, k, log);
            &&& forall|x: Message| !(x is ACK) ==> #[trigger] accounted_for(q0, q1, done, x)
            &&& forall|i: int| 0 <= i < done.len() ==> acknowledged_by(q0, (#[trigger] done[i]).src, Receiver::A)
                && acknowledged_by(q0, done[i].src, Receiver::B)
        }),
    decreases q0.len() - k,
{
    if k < q0.len() {
        lemma_step_exact(q, q0, k, log);
        if let Message::REQ(req) = q0[k] {
            if acknowledged_by(q, req.src, Receiver::A) && acknowledged_by(q, req.src, Receiver::B) {
                let next = erase_executed(q, q0[k], req.src);
                let next_log = log.push(req);
                lemma_subsequence_trans(next, q, q0);
                lemma_sub_acknowledged(q, q0, req.src, Receiver::A);
                lemma_sub_acknowledged(q, q0, req.src, Receiver::B);
                assert forall|i: int| 0 <= i < next_log.len() implies acknowledged_by(q0, (#[trigger] next_log[i]).src, Receiver::A)
                    && acknowledged_by(q0, next_log[i].src, Receiver::B) by {
                    if i < log.len() {
                        assert(next_log[i] == log[i]);
                    }
                }
                assert forall|x: Message| !(x is ACK) implies #[trigger] accounted_for(q0, next, next_log, x) by {
                    assert(next_log[log.len() as int] == req);
                    if x == q0[k] {
                        assert(next.to_multiset().count(x) == 0);
                    } else {
                        assert(next.to_multiset().count(x) == q.to_multiset().count(x));
                        assert(accounted_for(q0, q, log, x));
                        if q.to_multiset().count(x) != q0.to_multiset().count(x) {
                            if let Message::REQ(r) = x {
                                let i = choose|i: int| 0 <= i < log.len() && log[i] == r;
                                assert(next_log[i] == log[i]);
                            }
                        }
                    }
                }
                lemma_execute_from_accounts(q0, next, k + 1, next_log);
            } else {
                lemma_execute_from_accounts(q0, q, k + 1, log);
            }
        } else {
            lemma_execute_from_accounts(q0, q, k + 1, log);
        }
    }
}

/// Law: a request is executed only when the queue held an acknowledgement
/// for its source from A and one from B; and the check takes away no message
/// but executed requests and acknowledgements: every request of the starting
/// queue is still there as often as before, unless it is gone and a request
/// equal to its own is among the executed ones.
pub proof fn lemma_execution_is_justified(q: Seq<Message>)
    ensures
        forall|i: int|
            0 <= i < execute_ready_tasks(q).1.len() ==> acknowledged_by(
                q,
                (#[trigger] execute_ready_tasks(q).1[i]).src,
                Receiver::A,
            ) && acknowledged_by(q, execute_ready_tasks(q).1[i].src, Receiver::B),
        forall|x: Message|
            !(x is ACK) ==> #[trigger] accounted_for(q, execute_ready_tasks(q).0, execute_ready_tasks(q).1, x),
{
    lemma_subsequence_refl(q);
    lemma_execute_from_accounts(q, q, 0, Seq::empty());
}

} // verus!
