//! What holds of an insertion and a deletion taken together.

use crate::list::SkipList;
use crate::model::{lemma_with_key_holds, lemma_with_then_without, with_key, without_key};
use vstd::prelude::*;

verus! {

/// Two lists with the same levels and the same keys on each of them have the
/// same `level`.
pub proof fn lemma_level_determined(a: SkipList, b: SkipList)
    requires
        a.level_is_top(),
        b.level_is_top(),
        a.spec_max_level() == b.spec_max_level(),
        forall|l: int| 0 <= l < a.spec_max_level() ==> a.level_keys(l) == b.level_keys(l),
    ensures
        a.spec_level() == b.spec_level(),
{
    if a.spec_level() < b.spec_level() {
        assert(a.level_keys(b.spec_level() as int).len() == 0);
    }
    if b.spec_level() < a.spec_level() {
        assert(b.level_keys(a.spec_level() as int).len() == 0);
    }
}

/// Law: a key is in the list after its insertion, whatever the height of its
/// tower, and the other keys are those that were there.
pub proof fn lemma_insertion_holds(pre: SkipList, post: SkipList, key: i32, height: int)
    requires
        pre.wf(),
        0 <= height < pre.spec_max_level(),
        SkipList::is_insertion(pre, post, key, height),
    ensures
        post@ == with_key(pre@, key),
        post@.contains(key),
        forall|k: i32| post@.contains(k) <==> k == key || pre@.contains(k),
{
    assert(post.level_keys(0) == with_key(pre.level_keys(0), key));
    lemma_with_key_holds(pre@, key);
}

/// Law: inserting a key a second time changes nothing. After the first
/// insertion the list holds the key, so that the second is refused; the keys
/// of every level and `level` are then as the first insertion left them,
/// and level 0 has grown by one key at most.
pub proof fn lemma_insert_twice(
    pre: SkipList,
    once: SkipList,
    twice: SkipList,
    key: i32,
    first: int,
    second: int,
)
    requires
        pre.wf(),
        0 <= first < pre.spec_max_level(),
        0 <= second < pre.spec_max_level(),
        SkipList::is_insertion(pre, once, key, first),
        SkipList::is_insertion(once, twice, key, second),
    ensures
        once@.contains(key),
        forall|l: int| 0 <= l < pre.spec_max_level() ==> twice.level_keys(l) == once.level_keys(l),
        twice@ == once@,
        twice.spec_level() == once.spec_level(),
        once@.len() == if pre@.contains(key) {
            pre@.len()
        } else {
            pre@.len() + 1
        },
{
    lemma_insertion_holds(pre, once, key, first);
    lemma_with_key_holds(pre@, key);
    assert(twice.level_keys(0) == once.level_keys(0));
}

/// Law: deleting a key that the list does not hold changes nothing: the keys
/// of every level and `level` stay as they were.
pub proof fn lemma_delete_absent(pre: SkipList, post: SkipList, key: i32)
    requires
        pre.wf(),
        post.wf(),
        !pre@.contains(key),
        SkipList::is_deletion(pre, post, key),
    ensures
        forall|l: int| 0 <= l < pre.spec_max_level() ==> post.level_keys(l) == pre.level_keys(l),
        post@ == pre@,
        post.spec_level() == pre.spec_level(),
{
    pre.lemma_level_bounds();
    assert forall|l: int| 0 <= l < pre.spec_max_level() implies post.level_keys(l)
        == pre.level_keys(l) by {
        if pre.level_keys(l).contains(key) {
            pre.lemma_towers_contiguous(key, l, 0);
        }
        assert(post.level_keys(l) == without_key(pre.level_keys(l), key));
    }
    assert(post.level_keys(0) == pre.level_keys(0));
    pre.lemma_level_bounds();
    post.lemma_level_bounds();
    lemma_level_determined(pre, post);
}

/// Law: inserting a key that the list does not hold and deleting it at once
/// gives back the list as it was: the same keys on every level, and the same
/// `level`.
///
/// Of a key that the list holds this is false: the insertion is refused and
/// the deletion takes the key away.
pub proof fn lemma_insert_then_delete(
    pre: SkipList,
    mid: SkipList,
    post: SkipList,
    key: i32,
    height: int,
)
    requires
        pre.wf(),
        post.wf(),
        0 <= height < pre.spec_max_level(),
        !pre@.contains(key),
        SkipList::is_insertion(pre, mid, key, height),
        SkipList::is_deletion(mid, post, key),
    ensures
        forall|l: int| 0 <= l < pre.spec_max_level() ==> post.level_keys(l) == pre.level_keys(l),
        post@ == pre@,
        post.spec_level() == pre.spec_level(),
{
    assert forall|l: int| 0 <= l < pre.spec_max_level() implies post.level_keys(l)
        == pre.level_keys(l) by {
        if pre.level_keys(l).contains(key) {
            pre.lemma_towers_contiguous(key, l, 0);
        }
        assert(post.level_keys(l) == without_key(mid.level_keys(l), key));
        if l <= height {
            assert(mid.level_keys(l) == with_key(pre.level_keys(l), key));
            lemma_with_then_without(pre.level_keys(l), key);
        } else {
            assert(mid.level_keys(l) == pre.level_keys(l));
        }
    }
    assert(post.level_keys(0) == pre.level_keys(0));
    pre.lemma_level_bounds();
    post.lemma_level_bounds();
    lemma_level_determined(pre, post);
}

} // verus!
