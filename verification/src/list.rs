//! The skip list: an arena of towers, linked level by level.

use crate::error::SkipListError;
use crate::lane::{before, lane_keys, lane_linked};
use crate::model::{is_cut, with_key, without_key};
use crate::node::Node;
use vstd::prelude::*;

mod delete;
mod facts;
mod insert;
mod keys;
mod walk;

verus! {

/// A node is on lane `l` exactly if it is on the lowest lane and its tower
/// reaches level `l`; no tower outgrows the lanes.
spec fn towers_ok(nodes: Seq<Node>, lanes: Seq<Seq<usize>>) -> bool {
    &&& forall|l: int, s: usize|
        0 <= l < lanes.len() ==> ((#[trigger] lanes[l].contains(s)) <==> lanes[0].contains(s) && l
            < nodes[s as int].forward@.len())
    &&& forall|s: usize|
        (#[trigger] lanes[0].contains(s)) ==> nodes[s as int].forward@.len() <= lanes.len()
}

/// The released slots are in the arena, hold no node of the list and are
/// listed once each.
spec fn free_ok(nodes: Seq<Node>, free: Seq<usize>, live: Seq<usize>) -> bool {
    &&& forall|j: int|
        0 <= j < free.len() ==> 0 < #[trigger] free[j] < nodes.len() && !live.contains(free[j])
    &&& free.no_duplicates()
}

/// An ordered set of `i32` keys.
///
/// The nodes live in an arena and name each other by slot. Slot 0 holds the
/// head, a sentinel in front of every key, whose tower has `max_level`
/// levels. Level 0 links every node; each higher level links those whose
/// tower reaches it.
pub struct SkipList {
    nodes: Vec<Node>,
    free: Vec<usize>,
    level: usize,
    max_level: usize,
    lanes: Ghost<Seq<Seq<usize>>>,
}

impl View for SkipList {
    type V = Seq<i32>;

    /// The keys of the list in ascending order: those of level 0.
    open spec fn view(&self) -> Seq<i32> {
        self.level_keys(0)
    }
}

impl SkipList {
    /// The number of levels that the list was made with.
    pub closed spec fn spec_max_level(&self) -> nat {
        self.max_level as nat
    }

    /// The highest level that holds a key; 0 in a list without keys.
    pub closed spec fn spec_level(&self) -> nat {
        self.level as nat
    }

    /// The number of slots in the arena: one for the head, and one for each
    /// node that the list holds or has held at the same time.
    pub closed spec fn spec_slots(&self) -> nat {
        self.nodes@.len()
    }

    /// The number of slots that a deletion has released and no insertion
    /// has taken again.
    pub closed spec fn spec_spare_slots(&self) -> nat {
        self.free@.len()
    }

    /// The keys linked on level `l`, in the order of the links.
    pub closed spec fn level_keys(&self, l: int) -> Seq<i32> {
        lane_keys(self.nodes@, self.lanes@[l])
    }

    /// `level` is the highest level that holds a key, or 0 where no level
    /// does.
    pub open spec fn level_is_top(&self) -> bool {
        &&& self.spec_level() < self.spec_max_level()
        &&& forall|l: int|
            self.spec_level() < l < self.spec_max_level() ==> (#[trigger] self.level_keys(l)).len()
                == 0
        &&& self.spec_level() > 0 ==> self.level_keys(self.spec_level() as int).len() > 0
    }

    /// `post` is what an insertion of `key`, in a tower up to level `height`,
    /// makes of `pre`: the key has joined the levels from 0 to `height`,
    /// unless `pre` held it, and `level` has risen to `height` if it was
    /// lower.
    pub open spec fn is_insertion(pre: SkipList, post: SkipList, key: i32, height: int) -> bool {
        &&& post.spec_max_level() == pre.spec_max_level()
        &&& forall|l: int|
            0 <= l < pre.spec_max_level() ==> (#[trigger] post.level_keys(l)) == (if l <= height
                && !pre@.contains(key) {
                with_key(pre.level_keys(l), key)
            } else {
                pre.level_keys(l)
            })
        &&& post.spec_level() == if !pre@.contains(key) && height > pre.spec_level() {
            height as nat
        } else {
            pre.spec_level()
        }
    }

    /// `post` is what a deletion of `key` makes of `pre`: the key has left
    /// every level that held it.
    pub open spec fn is_deletion(pre: SkipList, post: SkipList, key: i32) -> bool {
        &&& post.spec_max_level() == pre.spec_max_level()
        &&& forall|l: int|
            0 <= l < pre.spec_max_level() ==> (#[trigger] post.level_keys(l)) == without_key(
                pre.level_keys(l),
                key,
            )
    }

    /// Every lane is linked as the arena says.
    spec fn all_linked(nodes: Seq<Node>, lanes: Seq<Seq<usize>>) -> bool {
        &&& nodes.len() >= 1
        &&& nodes[0].forward@.len() == lanes.len()
        &&& forall|l: int| 0 <= l < lanes.len() ==> lane_linked(nodes, #[trigger] lanes[l], l)
    }

    /// `slot` is the last node of level `l` whose key is smaller than `key`,
    /// or the head where there is none, and `cut` its position on the lane.
    spec fn is_pred(&self, l: int, key: i32, slot: usize, cut: int) -> bool {
        &&& is_cut(lane_keys(self.nodes@, self.lanes@[l]), key, cut)
        &&& slot == before(self.lanes@[l], cut)
    }

    /// The invariant of the list: the links of each level form a chain of
    /// strictly growing keys, the towers have no gaps, `level` is the
    /// highest level in use, and each slot of the arena holds the head or a
    /// node of the list, or is spare.
    pub closed spec fn wf(&self) -> bool {
        &&& 1 <= self.max_level
        &&& self.level < self.max_level
        &&& self.lanes@.len() == self.max_level
        &&& Self::all_linked(self.nodes@, self.lanes@)
        &&& towers_ok(self.nodes@, self.lanes@)
        &&& forall|l: int|
            self.level < l < self.max_level ==> (#[trigger] self.lanes@[l]).len() == 0
        &&& self.level > 0 ==> self.lanes@[self.level as int].len() > 0
        &&& free_ok(self.nodes@, self.free@, self.lanes@[0])
        &&& self.nodes@.len() == 1 + self.lanes@[0].len() + self.free@.len()
    }

    /// A list without keys that can grow towers of up to `max_level` levels.
    ///
    /// A list needs one level at least: `max_level == 0` is refused.
    pub fn new(max_level: usize) -> (res: Result<SkipList, SkipListError>)
        ensures
            res is Err <==> max_level == 0,
            res matches Err(e) ==> e == SkipListError::InvalidConfiguration,
            res matches Ok(list) ==> {
                &&& list.wf()
                &&& list.spec_max_level() == max_level
                &&& list.spec_level() == 0
                &&& list.spec_slots() == 1
                &&& list.spec_spare_slots() == 0
                &&& forall|l: int| 0 <= l < max_level ==> list.level_keys(l) == Seq::<i32>::empty()
            },
    {
        if max_level < 1 {
            return Err(SkipListError::InvalidConfiguration);
        }
        let head = Node::new(0, max_level);
        let mut nodes: Vec<Node> = Vec::new();
        nodes.push(head);
        let ghost lanes = Seq::new(max_level as nat, |l: int| Seq::<usize>::empty());
        let list = SkipList { nodes, free: Vec::new(), level: 0, max_level, lanes: Ghost(lanes) };
        proof {
            assert forall|l: int| 0 <= l < lanes.len() implies lane_linked(
                list.nodes@,
                #[trigger] lanes[l],
                l,
            ) by {
                assert(forall|p: int| 0 <= p <= 0 ==> before(lanes[l], p) == 0);
            }
            assert forall|l: int| 0 <= l < max_level implies list.level_keys(l) == Seq::<
                i32,
            >::empty() by {
                assert(list.level_keys(l) =~= Seq::<i32>::empty());
            }
        }
        Ok(list)
    }

    /// The number of levels that the list was made with.
    pub fn max_level(&self) -> (n: usize)
        ensures
            n == self.spec_max_level(),
    {
        self.max_level
    }

    /// The highest level that holds a key; 0 in a list without keys.
    pub fn level(&self) -> (l: usize)
        ensures
            l == self.spec_level(),
    {
        self.level
    }

    /// The number of slots in the arena, the head's among them.
    pub fn slots(&self) -> (n: usize)
        ensures
            n == self.spec_slots(),
    {
        self.nodes.len()
    }

    /// The number of released slots that wait for a new node.
    pub fn spare_slots(&self) -> (n: usize)
        ensures
            n == self.spec_spare_slots(),
    {
        self.free.len()
    }
}

} // verus!
