//! Deletion: the node of a key leaves each level that it is on.

use super::{towers_ok, SkipList};
use crate::error::SkipListError;
use crate::lane::{
    at, before, kept, lane_keys, lane_linked, lemma_lane_distinct, lemma_lane_frame,
    lemma_lane_unlink, lemma_relinked_kept, lemma_remove_contains, on_level, relinked,
};
use crate::model::{lemma_without_key_at, without_key};
use crate::node::Node;
use vstd::prelude::*;

verus! {

/// The towers stay in order where slot `t` leaves every lane and the other
/// nodes keep their heights.
proof fn lemma_towers_without(
    a: Seq<Node>,
    b: Seq<Node>,
    before_lanes: Seq<Seq<usize>>,
    after_lanes: Seq<Seq<usize>>,
    t: usize,
)
    requires
        towers_ok(a, before_lanes),
        0 < before_lanes.len() == after_lanes.len(),
        forall|j: int, s: usize|
            0 <= j < before_lanes.len() ==> ((#[trigger] after_lanes[j].contains(s)) <==> s != t
                && before_lanes[j].contains(s)),
        forall|s: usize|
            s != t && (#[trigger] before_lanes[0].contains(s)) ==> b[s as int].forward@.len()
                == a[s as int].forward@.len(),
    ensures
        towers_ok(b, after_lanes),
{
    assert forall|l: int, s: usize| 0 <= l < after_lanes.len() implies (
    (#[trigger] after_lanes[l].contains(s)) <==> after_lanes[0].contains(s) && l
        < b[s as int].forward@.len()) by {
        assert(after_lanes[0].contains(s) <==> s != t && before_lanes[0].contains(s));
        assert(before_lanes[l].contains(s) <==> before_lanes[0].contains(s) && l
            < a[s as int].forward@.len());
    }
    assert forall|s: usize| #[trigger] after_lanes[0].contains(s) implies b[s as int].forward@.len()
        <= after_lanes.len() by {
        assert(before_lanes[0].contains(s));
    }
}

impl SkipList {
    /// Takes `key` out of the list.
    ///
    /// `Err(NotFound)` where the list does not hold the key; the list is then
    /// as it was. Otherwise the node of the key leaves every level that it
    /// was on, its slot is released, and `level` falls to the highest level
    /// that still holds a key.
    pub fn delete(&mut self, key: i32) -> (res: Result<(), SkipListError>)
        requires
            old(self).wf(),
        ensures
            final(self).wf(),
            res is Err <==> !old(self)@.contains(key),
            res matches Err(e) ==> e == SkipListError::NotFound,
            final(self)@ == without_key(old(self)@, key),
            Self::is_deletion(*old(self), *final(self), key),
            final(self).level_is_top(),
            final(self).spec_slots() == old(self).spec_slots(),
            final(self).spec_spare_slots() == if res is Ok {
                old(self).spec_spare_slots() + 1
            } else {
                old(self).spec_spare_slots()
            },
    {
        let ghost pre = *self;
        let ghost a0 = self.nodes@;
        let ghost lanes0 = self.lanes@;
        // The node in front of the key on each level in use.
        let (update, Ghost(cuts)) = self.fill_update_vector(key, self.level);
        assert(self.is_pred(0, key, update[0], cuts[0]));
        let target = match self.holder(update[0], key, Ghost(cuts[0])) {
            None => {
                proof {
                    assert forall|l: int| 0 <= l < self.max_level implies (#[trigger] self.level_keys(
                        l,
                    )) == without_key(self.level_keys(l), key) by {
                        if self.level_keys(l).contains(key) {
                            self.lemma_level_keys_in_view(l, key);
                        }
                    }
                    self.lemma_level_bounds();
                }
                return Err(SkipListError::NotFound);
            },
            Some(t) => t,
        };
        assert(lanes0[0][cuts[0]] == target);
        assert(lanes0[0].contains(target));
        // Unlink the node level by level, from level 0 up to the top of its
        // tower: there the node in front links to something else.
        let mut l: usize = 0;
        while l <= self.level
            invariant
                pre.wf(),
                a0 == pre.nodes@,
                lanes0 == pre.lanes@,
                self.level == pre.level,
                self.max_level == pre.max_level,
                self.free@ == pre.free@,
                0 <= l <= self.level + 1,
                update.len() == self.level + 1,
                cuts.len() == self.level + 1,
                forall|j: int|
                    0 <= j <= self.level ==> #[trigger] pre.is_pred(j, key, update[j], cuts[j]),
                lanes0[0].contains(target),
                at(lanes0[0], cuts[0]) == Some(target),
                a0[target as int].key == key,
                self.lanes@.len() == lanes0.len(),
                self.nodes@.len() == a0.len(),
                forall|s: int|
                    0 <= s < a0.len() ==> (#[trigger] self.nodes@[s]).key == a0[s].key
                        && self.nodes@[s].forward@.len() == a0[s].forward@.len(),
                forall|j: int|
                    0 <= j < l ==> 0 <= #[trigger] cuts[j] < lanes0[j].len() && lanes0[j][cuts[j]]
                        == target,
                forall|j: int|
                    0 <= j < l ==> (#[trigger] self.lanes@[j]) == lanes0[j].remove(cuts[j]),
                forall|j: int| l <= j < lanes0.len() ==> (#[trigger] self.lanes@[j]) == lanes0[j],
                Self::all_linked(self.nodes@, self.lanes@),
                forall|j: int|
                    0 <= j < lanes0.len() ==> lane_keys(self.nodes@, #[trigger] self.lanes@[j]) == (
                    if j < l {
                        without_key(lane_keys(a0, lanes0[j]), key)
                    } else {
                        lane_keys(a0, lanes0[j])
                    }),
            ensures
                l >= 1,
                forall|j: int| l <= j < lanes0.len() ==> !(#[trigger] lanes0[j]).contains(target),
            decreases self.level + 1 - l,
        {
            let pred = update[l];
            let ghost lane = lanes0[l as int];
            let ghost cut = cuts[l as int];
            let ghost a = self.nodes@;
            proof {
                assert(pre.is_pred(l as int, key, update[l as int], cuts[l as int]));
                assert(self.lanes@[l as int] == lane);
                assert(lane_linked(a, lane, l as int));
                assert(lane_linked(a0, lane, l as int));
                assert(a[before(lane, cut) as int].forward@[l as int] == at(lane, cut));
                if cut > 0 {
                    assert(on_level(a, lane[cut - 1], l as int));
                }
                pre.lemma_key_on_lane(l as int, key, target);
                pre.lemma_holder_at_cut(l as int, key, target, cut);
                assert(a[0].forward@.len() == pre.max_level);
            }
            let linked = match self.nodes[pred].forward[l] {
                Some(next) => next == target,
                None => false,
            };
            if !linked {
                proof {
                    assert(!lane.contains(target));
                    assert forall|j: int| l <= j < lanes0.len() implies !(#[trigger] lanes0[j]).contains(
                        target,
                    ) by {
                        assert(lanes0[j].contains(target) ==> j < a0[target as int].forward@.len());
                    }
                }
                break ;
            }
            proof {
                assert(lane[cut] == target);
                assert(on_level(a, lane[cut], l as int));
                assert(a[before(lane, cut + 1) as int].forward@[l as int] == at(lane, cut + 1));
            }
            let next = self.nodes[target].forward[l];
            self.nodes[pred].forward[l] = next;
            let ghost b = self.nodes@;
            let ghost shrunk = self.lanes@.update(l as int, lane.remove(cut));
            proof {
                assert(relinked(a, b, pred, l as int, next));
                lemma_relinked_kept(a, b, pred, l as int, next);
                lemma_lane_distinct(a, lane, l as int);
                lemma_lane_unlink(a, b, lane, l as int, cut);
                lemma_without_key_at(lane_keys(a0, lane), key, cut);
                assert forall|j: int| 0 <= j < shrunk.len() implies lane_linked(
                    b,
                    #[trigger] shrunk[j],
                    j,
                ) && lane_keys(b, shrunk[j]) == (if j == l {
                    lane_keys(a, lane).remove(cut)
                } else {
                    lane_keys(a, self.lanes@[j])
                }) by {
                    if j != l {
                        assert(lane_linked(a, self.lanes@[j], j));
                        lemma_lane_frame(a, b, self.lanes@[j], j);
                    }
                }
                assert forall|j: int| 0 <= j < l + 1 implies (#[trigger] shrunk[j]) == lanes0[j].remove(
                    cuts[j],
                ) by {
                    if j < l {
                        assert(self.lanes@[j] == lanes0[j].remove(cuts[j]));
                    }
                }
                assert forall|j: int| l + 1 <= j < lanes0.len() implies (#[trigger] shrunk[j])
                    == lanes0[j] by {
                    assert(self.lanes@[j] == lanes0[j]);
                }
            }
            self.lanes = Ghost(shrunk);
            l = l + 1;
        }
        // Release the node: its tower goes, its slot waits for a new node.
        let ghost a1 = self.nodes@;
        let ghost lanes1 = self.lanes@;
        self.nodes[target].forward = Vec::new();
        self.free.push(target);
        let ghost b1 = self.nodes@;
        let ghost free1 = self.free@;
        proof {
            assert(lane_linked(a0, lanes0[0], 0));
            assert(on_level(a0, lanes0[0][cuts[0]], 0));
            assert forall|j: int, s: usize| 0 <= j < lanes0.len() implies (
            (#[trigger] lanes1[j].contains(s)) <==> s != target && lanes0[j].contains(s)) by {
                if j < l {
                    assert(lanes1[j] == lanes0[j].remove(cuts[j]));
                    assert(lane_linked(a0, lanes0[j], j));
                    lemma_lane_distinct(a0, lanes0[j], j);
                    lemma_remove_contains(lanes0[j], cuts[j], s);
                } else {
                    assert(lanes1[j] == lanes0[j]);
                    assert(!lanes0[j].contains(target));
                }
            }
            assert forall|j: int| 0 <= j < lanes1.len() implies lane_linked(
                b1,
                #[trigger] lanes1[j],
                j,
            ) && lane_keys(b1, lanes1[j]) == lane_keys(a1, lanes1[j]) by {
                assert(lane_linked(a1, lanes1[j], j));
                assert forall|i: int| 0 <= i < lanes1[j].len() implies kept(
                    a1,
                    b1,
                    #[trigger] lanes1[j][i],
                    j,
                ) by {
                    assert(lanes1[j].contains(lanes1[j][i]));
                }
                lemma_lane_frame(a1, b1, lanes1[j], j);
            }
            lemma_towers_without(a0, b1, lanes0, lanes1, target);
            assert forall|j: int| 0 <= j < self.free@.len() implies 0 < #[trigger] self.free@[j]
                < b1.len() && !lanes1[0].contains(self.free@[j]) by {
                if j < pre.free@.len() {
                    assert(self.free@[j] == pre.free@[j]);
                }
            }
            assert forall|i: int, j: int|
                0 <= i < self.free@.len() && 0 <= j < self.free@.len() && i != j implies self.free@[i]
                != self.free@[j] by {
                if i < pre.free@.len() {
                    assert(self.free@[i] == pre.free@[i]);
                }
                if j < pre.free@.len() {
                    assert(self.free@[j] == pre.free@[j]);
                }
            }
            assert forall|j: int| 0 <= j < pre.max_level implies lane_keys(
                b1,
                #[trigger] lanes1[j],
            ) == without_key(lane_keys(a0, lanes0[j]), key) by {
                if j >= l {
                    pre.lemma_key_on_lane(j, key, target);
                }
            }
        }
        // Come down from the levels that the node has left empty.
        while self.level > 0 && self.nodes[0].forward[self.level].is_none()
            invariant
                self.level <= pre.level,
                self.max_level == pre.max_level,
                pre.level < pre.max_level,
                self.lanes@.len() == self.max_level,
                Self::all_linked(self.nodes@, self.lanes@),
                forall|j: int|
                    self.level < j < self.max_level ==> (#[trigger] self.lanes@[j]).len() == 0,
                self.nodes@ == b1,
                self.lanes@ == lanes1,
                self.free@ == free1,
            decreases self.level,
        {
            proof {
                let lane = self.lanes@[self.level as int];
                assert(lane_linked(self.nodes@, lane, self.level as int));
                assert(self.nodes@[before(lane, 0) as int].forward@[self.level as int] == at(lane, 0));
            }
            self.level = self.level - 1;
        }
        proof {
            let lane = self.lanes@[self.level as int];
            assert(lane_linked(self.nodes@, lane, self.level as int));
            assert(self.nodes@[before(lane, 0) as int].forward@[self.level as int] == at(lane, 0));
            self.lemma_level_bounds();
        }
        Ok(())
    }
}

} // verus!
