//! Insertion: a new node joins each level up to the height of its tower.

use super::{towers_ok, SkipList};
use crate::error::SkipListError;
use crate::lane::{
    at, before, kept, lane_keys, lane_linked, lemma_insert_contains, lemma_lane_frame,
    lemma_lane_splice, lemma_relinked_kept, on_level, relinked,
};
use crate::level::{draw_flips, level_from_flips};
use crate::model::{lemma_with_key_at, with_key};
use crate::node::Node;
use vstd::prelude::*;

verus! {

/// The towers stay in order where slot `n`, with a tower up to level `top`,
/// joins the lanes up to that level and the other nodes keep their heights.
proof fn lemma_towers_with(
    a: Seq<Node>,
    b: Seq<Node>,
    before_lanes: Seq<Seq<usize>>,
    after_lanes: Seq<Seq<usize>>,
    n: usize,
    top: int,
)
    requires
        towers_ok(a, before_lanes),
        0 <= top < before_lanes.len() == after_lanes.len(),
        !before_lanes[0].contains(n),
        b[n as int].forward@.len() == top + 1,
        forall|j: int, s: usize|
            0 <= j < before_lanes.len() ==> ((#[trigger] after_lanes[j].contains(s)) <==> (s == n
                && j <= top) || before_lanes[j].contains(s)),
        forall|s: usize|
            s != n && (#[trigger] before_lanes[0].contains(s)) ==> b[s as int].forward@.len()
                == a[s as int].forward@.len(),
    ensures
        towers_ok(b, after_lanes),
{
    assert forall|l: int, s: usize| 0 <= l < after_lanes.len() implies ((
    #[trigger] after_lanes[l].contains(s)) <==> after_lanes[0].contains(s) && l
        < b[s as int].forward@.len()) by {
        assert(after_lanes[0].contains(s) <==> s == n || before_lanes[0].contains(s));
        assert(before_lanes[l].contains(s) <==> before_lanes[0].contains(s) && l
            < a[s as int].forward@.len());
    }
    assert forall|s: usize| (#[trigger] after_lanes[0].contains(s)) implies b[s as int].forward@.len()
        <= after_lanes.len() by {
        assert(s == n || before_lanes[0].contains(s));
    }
}

impl SkipList {
    /// A new node takes a spare slot if there is one, else the arena grows
    /// by a slot; where no node came (`came` is false), nothing changes.
    pub open spec fn takes_slot(pre: SkipList, post: SkipList, came: bool) -> bool {
        if !came {
            post.spec_slots() == pre.spec_slots() && post.spec_spare_slots()
                == pre.spec_spare_slots()
        } else if pre.spec_spare_slots() > 0 {
            post.spec_slots() == pre.spec_slots() && post.spec_spare_slots()
                == pre.spec_spare_slots() - 1
        } else {
            post.spec_slots() == pre.spec_slots() + 1 && post.spec_spare_slots() == 0
        }
    }

    /// Puts `key` into the list, in a node whose tower reaches level
    /// `height`.
    ///
    /// `Err(AlreadyPresent)` where the list holds the key; the list is then
    /// as it was. Otherwise the key joins each level from 0 to `height`, in
    /// its place among the keys there, and `level` rises to `height` if it
    /// was lower.
    pub fn insert_with_height(&mut self, key: i32, height: usize) -> (res: Result<
        (),
        SkipListError,
    >)
        requires
            old(self).wf(),
            height < old(self).spec_max_level(),
        ensures
            final(self).wf(),
            res is Err <==> old(self)@.contains(key),
            res matches Err(e) ==> e == SkipListError::AlreadyPresent,
            final(self)@ == with_key(old(self)@, key),
            Self::is_insertion(*old(self), *final(self), key, height as int),
            Self::takes_slot(*old(self), *final(self), res is Ok),
    {
        let ghost pre = *self;
        let ghost a0 = self.nodes@;
        let ghost lanes0 = self.lanes@;
        // The node in front of the key on each level that the tower reaches.
        let (update, Ghost(cuts)) = self.fill_update_vector(key, height);
        assert(self.is_pred(0, key, update[0], cuts[0]));
        if self.holder(update[0], key, Ghost(cuts[0])).is_some() {
            return Err(SkipListError::AlreadyPresent);
        }
        proof {
            assert forall|j: int| 0 <= j < lanes0.len() implies !lane_keys(
                a0,
                #[trigger] lanes0[j],
            ).contains(key) by {
                if self.level_keys(j).contains(key) {
                    self.lemma_level_keys_in_view(j, key);
                }
            }
        }
        // The key is new: its node takes a spare slot, or a new one.
        let node = Node::new(key, height + 1);
        let n = match self.free.pop() {
            Some(slot) => {
                self.nodes[slot] = node;
                slot
            },
            None => {
                self.nodes.push(node);
                self.nodes.len() - 1
            },
        };
        let ghost a1 = self.nodes@;
        let ghost free1 = self.free@;
        proof {
            assert(!lanes0[0].contains(n)) by {
                if lanes0[0].contains(n) {
                    let i = lanes0[0].index_of(n);
                    assert(lane_linked(a0, lanes0[0], 0));
                    assert(on_level(a0, lanes0[0][i], 0));
                    if pre.free@.len() > 0 {
                        assert(pre.free@[pre.free@.len() - 1] == n);
                    }
                }
            }
            assert forall|j: int| 0 <= j < lanes0.len() implies !(#[trigger] lanes0[j]).contains(
                n,
            ) by {}
            assert forall|j: int| 0 <= j < lanes0.len() implies lane_linked(
                a1,
                #[trigger] lanes0[j],
                j,
            ) && lane_keys(a1, lanes0[j]) == lane_keys(a0, lanes0[j]) by {
                assert(lane_linked(a0, lanes0[j], j));
                assert forall|i: int| 0 <= i < lanes0[j].len() implies kept(
                    a0,
                    a1,
                    #[trigger] lanes0[j][i],
                    j,
                ) by {
                    assert(lanes0[j].contains(lanes0[j][i]));
                }
                lemma_lane_frame(a0, a1, lanes0[j], j);
            }
        }
        // Splice the node in behind the node in front, level by level.
        let mut l: usize = 0;
        while l <= height
            invariant
                pre.wf(),
                a0 == pre.nodes@,
                lanes0 == pre.lanes@,
                self.level == pre.level,
                self.max_level == pre.max_level,
                self.free@ == free1,
                height < self.max_level,
                0 <= l <= height + 1,
                update.len() == height + 1,
                cuts.len() == height + 1,
                forall|j: int| 0 <= j <= height ==> #[trigger] pre.is_pred(j, key, update[j], cuts[j]),
                forall|j: int|
                    0 <= j < lanes0.len() ==> !lane_keys(a0, #[trigger] lanes0[j]).contains(key),
                forall|j: int| 0 <= j < lanes0.len() ==> !(#[trigger] lanes0[j]).contains(n),
                0 < n < self.nodes@.len(),
                a0.len() <= self.nodes@.len() == a1.len(),
                self.nodes@[n as int].key == key,
                self.nodes@[n as int].forward@.len() == height + 1,
                forall|s: int|
                    0 <= s < a0.len() && s != n ==> (#[trigger] self.nodes@[s]).key == a0[s].key
                        && self.nodes@[s].forward@.len() == a0[s].forward@.len(),
                self.lanes@.len() == lanes0.len(),
                forall|j: int|
                    0 <= j < l ==> (#[trigger] self.lanes@[j]) == lanes0[j].insert(cuts[j], n),
                forall|j: int| l <= j < lanes0.len() ==> (#[trigger] self.lanes@[j]) == lanes0[j],
                Self::all_linked(self.nodes@, self.lanes@),
                forall|j: int|
                    0 <= j < lanes0.len() ==> lane_keys(self.nodes@, #[trigger] self.lanes@[j]) == (
                    if j < l {
                        with_key(lane_keys(a0, lanes0[j]), key)
                    } else {
                        lane_keys(a0, lanes0[j])
                    }),
            decreases height + 1 - l,
        {
            let pred = update[l];
            let ghost lane = lanes0[l as int];
            let ghost cut = cuts[l as int];
            let ghost a = self.nodes@;
            proof {
                assert(pre.is_pred(l as int, key, update[l as int], cuts[l as int]));
                assert(self.lanes@[l as int] == lane);
                assert(lane_linked(a, lane, l as int));
                assert(a[before(lane, cut) as int].forward@[l as int] == at(lane, cut));
                if cut > 0 {
                    assert(on_level(a, lane[cut - 1], l as int));
                    assert(lane.contains(lane[cut - 1]));
                }
                assert(a[0].forward@.len() == pre.max_level);
            }
            let next = self.nodes[pred].forward[l];
            self.nodes[n].forward[l] = next;
            let ghost m = self.nodes@;
            self.nodes[pred].forward[l] = Some(n);
            let ghost b = self.nodes@;
            let ghost grown = self.lanes@.update(l as int, lane.insert(cut, n));
            proof {
                assert(relinked(a, m, n, l as int, next));
                assert(relinked(m, b, pred, l as int, Some(n)));
                lemma_relinked_kept(a, m, n, l as int, next);
                lemma_relinked_kept(m, b, pred, l as int, Some(n));
                assert forall|s: usize, j: int| j != l implies #[trigger] kept(a, b, s, j) by {
                    assert(kept(a, m, s, j));
                    assert(kept(m, b, s, j));
                }
                assert(lane_keys(a, lane) == lane_keys(a0, lane));
                lemma_lane_splice(a, b, lane, l as int, cut, n);
                lemma_with_key_at(lane_keys(a0, lane), key, cut);
                assert forall|j: int| 0 <= j < grown.len() implies lane_linked(
                    b,
                    #[trigger] grown[j],
                    j,
                ) && lane_keys(b, grown[j]) == (if j == l {
                    lane_keys(a, lane).insert(cut, key)
                } else {
                    lane_keys(a, self.lanes@[j])
                }) by {
                    if j != l {
                        assert(lane_linked(a, self.lanes@[j], j));
                        lemma_lane_frame(a, b, self.lanes@[j], j);
                    }
                }
                assert forall|j: int| 0 <= j < l + 1 implies (#[trigger] grown[j]) == lanes0[j].insert(
                    cuts[j],
                    n,
                ) by {
                    if j < l {
                        assert(self.lanes@[j] == lanes0[j].insert(cuts[j], n));
                    }
                }
                assert forall|j: int| l + 1 <= j < lanes0.len() implies (#[trigger] grown[j])
                    == lanes0[j] by {
                    assert(self.lanes@[j] == lanes0[j]);
                }
            }
            self.lanes = Ghost(grown);
            l = l + 1;
        }
        if height > self.level {
            self.level = height;
        }
        proof {
            let b1 = self.nodes@;
            let lanes1 = self.lanes@;
            assert forall|j: int, s: usize| 0 <= j < lanes0.len() implies ((
            #[trigger] lanes1[j].contains(s)) <==> (s == n && j <= height) || lanes0[j].contains(
                s,
            )) by {
                assert(pre.is_pred(0, key, update[0], cuts[0]));
                if j <= height {
                    assert(pre.is_pred(j, key, update[j], cuts[j]));
                    assert(lanes1[j] == lanes0[j].insert(cuts[j], n));
                    lemma_insert_contains(lanes0[j], cuts[j], n, s);
                } else {
                    assert(lanes1[j] == lanes0[j]);
                    assert(!lanes0[j].contains(n));
                }
            }
            assert forall|s: usize| s != n && (#[trigger] lanes0[0].contains(s)) implies b1[s as int].forward@.len()
                == a0[s as int].forward@.len() by {
                let i = lanes0[0].index_of(s);
                assert(lane_linked(a0, lanes0[0], 0));
                assert(on_level(a0, lanes0[0][i], 0));
            }
            lemma_towers_with(a0, b1, lanes0, lanes1, n, height as int);
            assert forall|j: int| 0 <= j < free1.len() implies 0 < #[trigger] free1[j] < b1.len()
                && !lanes1[0].contains(free1[j]) by {
                assert(free1[j] == pre.free@[j]);
                assert(!lanes0[0].contains(pre.free@[j]));
            }
            assert(free1.no_duplicates()) by {
                assert forall|i: int, j: int|
                    0 <= i < free1.len() && 0 <= j < free1.len() && i != j implies free1[i]
                    != free1[j] by {
                    assert(free1[i] == pre.free@[i]);
                    assert(free1[j] == pre.free@[j]);
                }
            }
            assert(lanes1[height as int].contains(n));
            if self.level > 0 && height <= pre.level {
                assert(lanes0[self.level as int].contains(lanes0[self.level as int][0]));
                assert(lanes1[self.level as int].contains(lanes0[self.level as int][0]));
            }
        }
        Ok(())
    }

    /// A level for a new tower, drawn by flipping a fair coin: one level up
    /// for each head, until tails comes or the highest level is reached.
    pub fn random_level(&self) -> (level: usize)
        requires
            self.wf(),
        ensures
            level < self.spec_max_level(),
    {
        let flips = draw_flips(self.max_level - 1);
        level_from_flips(&flips, self.max_level)
    }

    /// Puts `key` into the list, in a node whose height is drawn by
    /// `random_level`.
    ///
    /// `Err(AlreadyPresent)` where the list holds the key; the list is then
    /// as it was. Whatever height is drawn, the keys of the list are
    /// afterwards those it held and `key`.
    pub fn insert(&mut self, key: i32) -> (res: Result<(), SkipListError>)
        requires
            old(self).wf(),
        ensures
            final(self).wf(),
            res is Err <==> old(self)@.contains(key),
            res matches Err(e) ==> e == SkipListError::AlreadyPresent,
            final(self)@ == with_key(old(self)@, key),
            exists|height: int|
                0 <= height < old(self).spec_max_level() && #[trigger] Self::is_insertion(
                    *old(self),
                    *final(self),
                    key,
                    height,
                ),
            Self::takes_slot(*old(self), *final(self), res is Ok),
    {
        let height = self.random_level();
        let res = self.insert_with_height(key, height);
        assert(Self::is_insertion(*old(self), *self, key, height as int));
        res
    }
}

} // verus!
