//! A list seen through its history: it holds the keys that were inserted and
//! not deleted afterwards.

use crate::list::SkipList;
use crate::model::{
    lemma_with_key_holds, lemma_with_key_sorted, lemma_without_key_holds, strictly_increasing,
    with_key, without_key,
};
use vstd::prelude::*;

verus! {

/// One change asked of a list.
pub enum Op {
    /// The insertion of a key.
    Insert(i32),
    /// The deletion of a key.
    Delete(i32),
}

/// The keys that `op` makes of the keys `s`.
pub open spec fn apply(s: Seq<i32>, op: Op) -> Seq<i32> {
    match op {
        Op::Insert(k) => with_key(s, k),
        Op::Delete(k) => without_key(s, k),
    }
}

/// The keys that a run of changes, made in order, leaves of an empty list.
pub open spec fn replay(ops: Seq<Op>) -> Seq<i32>
    decreases ops.len(),
{
    if ops.len() == 0 {
        Seq::empty()
    } else {
        apply(replay(ops.drop_last()), ops.last())
    }
}

/// The change at `i` inserts `k`, and no later change deletes it.
pub open spec fn inserts_for_good(ops: Seq<Op>, k: i32, i: int) -> bool {
    &&& 0 <= i < ops.len()
    &&& ops[i] == Op::Insert(k)
    &&& forall|j: int| i < j < ops.len() ==> (#[trigger] ops[j]) != Op::Delete(k)
}

/// `k` was inserted in the course of `ops` and not deleted after that.
pub open spec fn inserted_and_kept(ops: Seq<Op>, k: i32) -> bool {
    exists|i: int| inserts_for_good(ops, k, i)
}

/// `post` is what `op` makes of `pre`, whatever height an insertion draws.
pub open spec fn follows(pre: SkipList, post: SkipList, op: Op) -> bool {
    match op {
        Op::Insert(k) => exists|height: int|
            0 <= height < pre.spec_max_level() && #[trigger] SkipList::is_insertion(
                pre,
                post,
                k,
                height,
            ),
        Op::Delete(k) => SkipList::is_deletion(pre, post, k),
    }
}

/// `states` are the lists that the changes `ops` lead through, from an empty
/// list on: one list before each change, and the last one after them all.
pub open spec fn is_history(states: Seq<SkipList>, ops: Seq<Op>) -> bool {
    &&& states.len() == ops.len() + 1
    &&& forall|i: int| 0 <= i < states.len() ==> (#[trigger] states[i]).wf()
    &&& states[0]@ == Seq::<i32>::empty()
    &&& forall|i: int| 0 <= i < ops.len() ==> follows(states[i], states[i + 1], (#[trigger] ops[i]))
}

/// A key is kept through one more change if that change inserts it, or if
/// it was kept so far and the change does not delete it.
proof fn lemma_kept_through(ops: Seq<Op>, k: i32)
    requires
        ops.len() > 0,
    ensures
        inserted_and_kept(ops, k) <==> ops.last() == Op::Insert(k) || (ops.last() != Op::Delete(k)
            && inserted_and_kept(ops.drop_last(), k)),
{
    let front = ops.drop_last();
    let last = ops.len() - 1;
    assert(forall|i: int| 0 <= i < front.len() ==> front[i] == ops[i]);
    if inserted_and_kept(ops, k) {
        let i = choose|i: int| inserts_for_good(ops, k, i);
        if i < last {
            assert(ops[last] != Op::Delete(k));
            assert forall|j: int| i < j < front.len() implies (#[trigger] front[j]) != Op::Delete(
                k,
            ) by {
                assert(ops[j] != Op::Delete(k));
            }
            assert(inserts_for_good(front, k, i));
        }
    }
    if ops.last() == Op::Insert(k) {
        assert(inserts_for_good(ops, k, last));
    } else if ops.last() != Op::Delete(k) && inserted_and_kept(front, k) {
        let i = choose|i: int| inserts_for_good(front, k, i);
        assert forall|j: int| i < j < ops.len() implies (#[trigger] ops[j]) != Op::Delete(k) by {
            if j < last {
                assert(front[j] != Op::Delete(k));
            }
        }
        assert(inserts_for_good(ops, k, i));
    }
}

/// Law: the keys that a run of changes leaves are in strictly ascending
/// order, and they are the keys that were inserted and not deleted
/// afterwards.
pub proof fn lemma_replay(ops: Seq<Op>, k: i32)
    ensures
        strictly_increasing(replay(ops)),
        replay(ops).contains(k) <==> inserted_and_kept(ops, k),
    decreases ops.len(),
{
    if ops.len() > 0 {
        let so_far = replay(ops.drop_last());
        lemma_replay(ops.drop_last(), k);
        lemma_kept_through(ops, k);
        match ops.last() {
            Op::Insert(x) => {
                lemma_with_key_sorted(so_far, x);
                lemma_with_key_holds(so_far, x);
            },
            Op::Delete(x) => {
                lemma_without_key_holds(so_far, x);
            },
        }
    } else {
        if inserted_and_kept(ops, k) {
            let i = choose|i: int| inserts_for_good(ops, k, i);
        }
    }
}

/// The list at the end of a history holds the keys that replaying the
/// changes gives.
pub proof fn lemma_history_replays(states: Seq<SkipList>, ops: Seq<Op>)
    requires
        is_history(states, ops),
    ensures
        states.last()@ == replay(ops),
    decreases ops.len(),
{
    if ops.len() > 0 {
        let last = ops.len() - 1;
        let front = ops.drop_last();
        let before = states.drop_last();
        assert(forall|i: int| 0 <= i < before.len() ==> before[i] == states[i]);
        assert forall|i: int| 0 <= i < front.len() implies follows(
            before[i],
            before[i + 1],
            (#[trigger] front[i]),
        ) by {
            assert(follows(states[i], states[i + 1], ops[i]));
        }
        lemma_history_replays(before, front);
        let pre = states[last];
        let post = states[last + 1];
        assert(pre.wf());
        pre.lemma_level_bounds();
        assert(follows(pre, post, ops[last]));
        assert(post.level_keys(0) == apply(pre.level_keys(0), ops[last]));
    }
}

/// Law: at the end of a history the list holds a key exactly if the key was
/// inserted and not deleted afterwards. A search reports exactly the keys
/// that the list holds.
pub proof fn lemma_held_after_history(states: Seq<SkipList>, ops: Seq<Op>, k: i32)
    requires
        is_history(states, ops),
    ensures
        states.last()@.contains(k) <==> inserted_and_kept(ops, k),
{
    lemma_history_replays(states, ops);
    lemma_replay(ops, k);
}

} // verus!
