//! The order in which a receiver keeps its queue: by timestamp, and among
//! messages with the same timestamp, in the order in which they were queued
//! (a stable sort).

use crate::ipc::Message;
use crate::seqs::{keep_where, lemma_keep_where_append, lemma_keep_where_none, lemma_keep_where_same};
use vstd::prelude::*;

verus! {

broadcast use vstd::seq_lib::group_seq_properties;

/// The key by which messages are ordered: the timestamp, read as 0 when it is
/// absent (which a sort of two or more messages never meets).
pub open spec fn key(m: Message) -> int {
    match m.timestamp {
        Some(t) => t as int,
        None => 0,
    }
}

/// Every message of `s` carries a timestamp.
pub open spec fn all_stamped(s: Seq<Message>) -> bool {
    forall|i: int| 0 <= i < s.len() ==> (#[trigger] s[i]).timestamp is Some
}

/// The messages of `s` are in timestamp order.
pub open spec fn is_sorted_by_timestamp(s: Seq<Message>) -> bool {
    forall|i: int, j: int| 0 <= i <= j < s.len() ==> key(#[trigger] s[i]) <= key(#[trigger] s[j])
}

/// The index of the first message of `s` whose timestamp is later than that
/// of `m`, or the length of `s` when there is none.
pub open spec fn first_later(s: Seq<Message>, m: Message) -> nat
    decreases s.len(),
{
    if s.len() == 0 {
        0
    } else if key(m) < key(s[0]) {
        0
    } else {
        1 + first_later(s.drop_first(), m)
    }
}

/// `m` inserted into `s` after every message whose timestamp is not later than
/// its own.
pub open spec fn insert_by_timestamp(s: Seq<Message>, m: Message) -> Seq<Message> {
    s.insert(first_later(s, m) as int, m)
}

/// `s` sorted by timestamp, stably: each message in turn is inserted after
/// all earlier ones whose timestamp is not later than its own.
pub open spec fn sort_by_timestamp(s: Seq<Message>) -> Seq<Message>
    decreases s.len(),
{
    if s.len() == 0 {
        s
    } else {
        insert_by_timestamp(sort_by_timestamp(s.drop_last()), s.last())
    }
}

/// `first_later` is the index that its description gives.
pub proof fn lemma_first_later(s: Seq<Message>, m: Message)
    ensures
        first_later(s, m) <= s.len(),
        forall|i: int| 0 <= i < first_later(s, m) ==> key(#[trigger] s[i]) <= key(m),
        first_later(s, m) < s.len() ==> key(m) < key(s[first_later(s, m) as int]),
    decreases s.len(),
{
    if s.len() > 0 && key(m) >= key(s[0]) {
        let t = s.drop_first();
        lemma_first_later(t, m);
        assert forall|i: int| 0 <= i < first_later(s, m) implies key(#[trigger] s[i]) <= key(m) by {
            if i > 0 {
                assert(s[i] == t[i - 1]);
            }
        }
    }
}

/// Any index with the two properties of `first_later` is `first_later`.
pub proof fn lemma_first_later_unique(s: Seq<Message>, m: Message, j: int)
    requires
        0 <= j <= s.len(),
        forall|i: int| 0 <= i < j ==> key(#[trigger] s[i]) <= key(m),
        j < s.len() ==> key(m) < key(s[j]),
    ensures
        first_later(s, m) == j,
{
    lemma_first_later(s, m);
    let f = first_later(s, m) as int;
    if f < j {
        assert(key(s[f]) <= key(m));
    } else if j < f {
        assert(key(s[j]) <= key(m));
    }
}

/// Sorting keeps the length.
pub proof fn lemma_sort_len(s: Seq<Message>)
    ensures
        sort_by_timestamp(s).len() == s.len(),
    decreases s.len(),
{
    if s.len() > 0 {
        lemma_sort_len(s.drop_last());
        lemma_first_later(sort_by_timestamp(s.drop_last()), s.last());
    }
}

/// Inserting by timestamp into a sorted sequence keeps it sorted.
pub proof fn lemma_insert_keeps_sorted(s: Seq<Message>, m: Message)
    requires
        is_sorted_by_timestamp(s),
    ensures
        is_sorted_by_timestamp(insert_by_timestamp(s, m)),
{
    lemma_first_later(s, m);
    let f = first_later(s, m) as int;
    let r = insert_by_timestamp(s, m);
    assert forall|i: int, j: int| 0 <= i <= j < r.len() implies key(#[trigger] r[i]) <= key(
        #[trigger] r[j],
    ) by {
        if j < f {
            assert(r[i] == s[i] && r[j] == s[j]);
        } else if j == f {
            if i < f {
                assert(r[i] == s[i]);
            }
        } else {
            assert(r[j] == s[j - 1]);
            if i < f {
                assert(r[i] == s[i]);
            } else if i == f {
                assert(key(s[f]) <= key(s[j - 1]));
            } else {
                assert(r[i] == s[i - 1]);
            }
        }
    }
}

/// Law: the result of sorting is in timestamp order.
pub proof fn lemma_sort_is_sorted(s: Seq<Message>)
    ensures
        is_sorted_by_timestamp(sort_by_timestamp(s)),
    decreases s.len(),
{
    if s.len() > 0 {
        lemma_sort_is_sorted(s.drop_last());
        lemma_insert_keeps_sorted(sort_by_timestamp(s.drop_last()), s.last());
    }
}

/// Law: sorting neither adds, drops nor duplicates a message: the result holds
/// each message as often as the input does.
pub proof fn lemma_sort_is_permutation(s: Seq<Message>)
    ensures
        sort_by_timestamp(s).to_multiset() == s.to_multiset(),
    decreases s.len(),
{
    if s.len() > 0 {
        let t = s.drop_last();
        lemma_sort_is_permutation(t);
        let st = sort_by_timestamp(t);
        lemma_first_later(st, s.last());
        vstd::seq_lib::to_multiset_insert(st, first_later(st, s.last()) as int, s.last());
        assert(s == t.push(s.last()));
        vstd::seq_lib::to_multiset_build(t, s.last());
    }
}

/// Law: a queue that is already in timestamp order is left as it is; in
/// particular messages with equal timestamps keep their order.
pub proof fn lemma_sort_of_sorted(s: Seq<Message>)
    requires
        is_sorted_by_timestamp(s),
    ensures
        sort_by_timestamp(s) == s,
    decreases s.len(),
{
    if s.len() > 0 {
        let t = s.drop_last();
        assert(is_sorted_by_timestamp(t)) by {
            assert forall|i: int, j: int| 0 <= i <= j < t.len() implies key(#[trigger] t[i]) <= key(
                #[trigger] t[j],
            ) by {
                assert(t[i] == s[i] && t[j] == s[j]);
            }
        }
        lemma_sort_of_sorted(t);
        assert forall|i: int| 0 <= i < t.len() implies key(#[trigger] t[i]) <= key(s.last()) by {
            assert(t[i] == s[i]);
        }
        lemma_first_later_unique(t, s.last(), t.len() as int);
        assert(t.insert(t.len() as int, s.last()) =~= s);
    }
}

/// Law: sorting twice gives what sorting once gives.
pub proof fn lemma_sort_idempotent(s: Seq<Message>)
    ensures
        sort_by_timestamp(sort_by_timestamp(s)) == sort_by_timestamp(s),
{
    lemma_sort_is_sorted(s);
    lemma_sort_of_sorted(sort_by_timestamp(s));
}

/// The messages of `s` whose timestamp key is `k`, in their order.
pub open spec fn with_key(s: Seq<Message>, k: int) -> Seq<Message> {
    keep_where(s, key_is(k))
}

/// The test that a message's timestamp key is `k`.
pub open spec fn key_is(k: int) -> spec_fn(Message) -> bool {
    |m: Message| key(m) == k
}

proof fn lemma_insert_with_key(s: Seq<Message>, m: Message, k: int)
    requires
        is_sorted_by_timestamp(s),
    ensures
        with_key(insert_by_timestamp(s, m), k) == if key(m) == k {
            with_key(s, k).push(m)
        } else {
            with_key(s, k)
        },
{
    let keep = key_is(k);
    lemma_first_later(s, m);
    assert(seq![m].drop_last() =~= Seq::<Message>::empty());
    assert(seq![m].last() == m);
    assert(keep_where(Seq::<Message>::empty(), keep) == Seq::<Message>::empty());
    let j = first_later(s, m) as int;
    let front = s.take(j);
    let back = s.skip(j);
    assert(s =~= front + back);
    assert(insert_by_timestamp(s, m) =~= front + (seq![m] + back));
    lemma_keep_where_append(front, back, keep);
    lemma_keep_where_append(front, seq![m] + back, keep);
    lemma_keep_where_append(seq![m], back, keep);
    assert(seq![m] =~= Seq::<Message>::empty().push(m));
    assert(Seq::<Message>::empty().push(m).drop_last() =~= Seq::<Message>::empty());
    if key(m) == k {
        assert forall|i: int| 0 <= i < back.len() implies !keep(#[trigger] back[i]) by {
            assert(back[i] == s[j + i]);
            assert(key(s[j]) <= key(s[j + i]));
        }
        lemma_keep_where_none(back, keep);
        assert(keep_where(seq![m], keep) =~= seq![m]);
        assert(keep_where(front, keep) + (seq![m] + Seq::<Message>::empty()) =~= (keep_where(front, keep)
            + Seq::<Message>::empty()).push(m));
    } else {
        assert(keep_where(seq![m], keep) =~= Seq::<Message>::empty());
        assert(Seq::<Message>::empty() + keep_where(back, keep) =~= keep_where(back, keep));
    }
}

/// Law: the sort is stable: the messages with any one timestamp come out in
/// the order in which they went in.
pub proof fn lemma_sort_is_stable(s: Seq<Message>, k: int)
    ensures
        with_key(sort_by_timestamp(s), k) == with_key(s, k),
    decreases s.len(),
{
    if s.len() > 0 {
        let t = s.drop_last();
        lemma_sort_is_stable(t, k);
        lemma_sort_is_sorted(t);
        lemma_insert_with_key(sort_by_timestamp(t), s.last(), k);
    }
}

/// The test that a message carries timestamp `t`.
pub open spec fn stamp_is(t: u64) -> spec_fn(Message) -> bool {
    |m: Message| m.timestamp == Some(t)
}

/// Law: sorting a queue whose messages carry timestamps (any queue of fewer
/// than two messages aside) orders it by those timestamps, keeps every
/// message as often as it was there, and keeps the messages with any one
/// timestamp in the order in which they went in.
pub proof fn lemma_sort_by_timestamps(s: Seq<Message>)
    requires
        s.len() >= 2 ==> all_stamped(s),
    ensures
        sort_by_timestamp(s).len() == s.len(),
        forall|i: int, j: int|
            0 <= i <= j < s.len() ==> (#[trigger] sort_by_timestamp(s)[i]).timestamp.unwrap() <= (
            #[trigger] sort_by_timestamp(s)[j]).timestamp.unwrap(),
        sort_by_timestamp(s).to_multiset() == s.to_multiset(),
        forall|t: u64| #[trigger] keep_where(sort_by_timestamp(s), stamp_is(t)) == keep_where(s, stamp_is(t)),
{
    let r = sort_by_timestamp(s);
    lemma_sort_len(s);
    lemma_sort_is_permutation(s);
    if s.len() < 2 {
        assert(is_sorted_by_timestamp(s));
        lemma_sort_of_sorted(s);
    } else {
        lemma_sort_is_sorted(s);
        assert forall|i: int| 0 <= i < r.len() implies (#[trigger] r[i]).timestamp is Some && key(r[i])
            == r[i].timestamp.unwrap() by {
            vstd::seq_lib::to_multiset_contains(r, r[i]);
            vstd::seq_lib::to_multiset_contains(s, r[i]);
            assert(r.contains(r[i]));
            let a = choose|a: int| 0 <= a < s.len() && s[a] == r[i];
            assert(s[a].timestamp is Some);
        }
        assert forall|i: int, j: int| 0 <= i <= j < s.len() implies (#[trigger] r[i]).timestamp.unwrap() <= (
        #[trigger] r[j]).timestamp.unwrap() by {
            assert(key(r[i]) <= key(r[j]));
        }
        assert forall|t: u64| #[trigger] keep_where(r, stamp_is(t)) == keep_where(s, stamp_is(t)) by {
            lemma_sort_is_stable(s, t as int);
            assert forall|i: int| 0 <= i < r.len() implies (stamp_is(t))(#[trigger] r[i]) == (key_is(t as int))(r[i]) by {
                assert(r[i].timestamp is Some);
            }
            assert forall|i: int| 0 <= i < s.len() implies (stamp_is(t))(#[trigger] s[i]) == (key_is(t as int))(s[i]) by {
                assert(s[i].timestamp is Some);
            }
            lemma_keep_where_same(r, stamp_is(t), key_is(t as int));
            lemma_keep_where_same(s, stamp_is(t), key_is(t as int));
        }
    }
}

} // verus!
