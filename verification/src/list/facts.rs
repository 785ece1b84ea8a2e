//! What the invariant of a list says of its keys.

use super::SkipList;
use crate::lane::{at, lane_keys, lane_linked};
use crate::model::{is_cut, strictly_increasing};
use vstd::prelude::*;

verus! {

impl SkipList {
    /// A key of a higher level is a key of the list.
    pub(super) proof fn lemma_level_keys_in_view(&self, l: int, key: i32)
        requires
            self.wf(),
            0 <= l < self.max_level,
            self.level_keys(l).contains(key),
        ensures
            self@.contains(key),
    {
        let lane = self.lanes@[l];
        let i = self.level_keys(l).index_of(key);
        assert(lane.contains(lane[i]));
        let i0 = self.lanes@[0].index_of(lane[i]);
        assert(self@[i0] == key);
    }

    /// The node `t` that holds `key` is on lane `l` exactly if the lane holds
    /// the key, and exactly if its tower reaches the level.
    pub(super) proof fn lemma_key_on_lane(&self, l: int, key: i32, t: usize)
        requires
            self.wf(),
            0 <= l < self.max_level,
            self.lanes@[0].contains(t),
            self.nodes@[t as int].key == key,
        ensures
            self.lanes@[l].contains(t) <==> lane_keys(self.nodes@, self.lanes@[l]).contains(key),
            self.lanes@[l].contains(t) <==> l < self.nodes@[t as int].forward@.len(),
    {
        let lane = self.lanes@[l];
        let keys = lane_keys(self.nodes@, lane);
        if lane.contains(t) {
            let j = lane.index_of(t);
            assert(keys[j] == key);
        }
        if keys.contains(key) {
            let i = keys.index_of(key);
            let s = lane[i];
            assert(lane.contains(s));
            let low = self.lanes@[0];
            let low_keys = lane_keys(self.nodes@, low);
            assert(lane_linked(self.nodes@, low, 0));
            let i0 = low.index_of(s);
            let i1 = low.index_of(t);
            assert(low_keys[i0] == key && low_keys[i1] == key);
            if i0 < i1 {
                assert(low_keys[i0] < low_keys[i1]);
            }
            if i1 < i0 {
                assert(low_keys[i1] < low_keys[i0]);
            }
            assert(s == t);
        }
    }

    /// If the node `t` that holds `key` is on lane `l`, it stands right
    /// behind the smaller keys, and only then.
    pub(super) proof fn lemma_holder_at_cut(&self, l: int, key: i32, t: usize, cut: int)
        requires
            self.wf(),
            0 <= l < self.max_level,
            self.nodes@[t as int].key == key,
            is_cut(lane_keys(self.nodes@, self.lanes@[l]), key, cut),
        ensures
            self.lanes@[l].contains(t) <==> at(self.lanes@[l], cut) == Some(t),
    {
        let lane = self.lanes@[l];
        let keys = lane_keys(self.nodes@, lane);
        assert(lane_linked(self.nodes@, lane, l));
        if lane.contains(t) {
            let j = lane.index_of(t);
            assert(keys[j] == key);
            if j > cut {
                assert(keys[cut] < keys[j]);
            }
            assert(j == cut);
        }
        if at(lane, cut) == Some(t) {
            assert(lane[cut] == t);
        }
    }

    /// Law: on every level the keys grow strictly along the links. So level
    /// 0 lists each key of the list once, in ascending order.
    pub proof fn lemma_levels_sorted(&self, l: int)
        requires
            self.wf(),
            0 <= l < self.spec_max_level(),
        ensures
            strictly_increasing(self.level_keys(l)),
    {
        assert(lane_linked(self.nodes@, self.lanes@[l], l));
    }

    /// Law: a tower has no gaps. A key of level `l` is a key of every level
    /// below it.
    pub proof fn lemma_towers_contiguous(&self, key: i32, l: int, lower: int)
        requires
            self.wf(),
            0 <= lower <= l < self.spec_max_level(),
            self.level_keys(l).contains(key),
        ensures
            self.level_keys(lower).contains(key),
    {
        let lane = self.lanes@[l];
        let i = self.level_keys(l).index_of(key);
        let slot = lane[i];
        assert(lane.contains(slot));
        assert(self.lanes@[lower].contains(slot));
        let j = self.lanes@[lower].index_of(slot);
        assert(self.level_keys(lower)[j] == key);
    }

    /// Law: `level` stays below `max_level` and is the highest level that
    /// holds a key: the levels above it hold none, and it holds one itself
    /// unless it is level 0. A list without keys has level 0.
    pub proof fn lemma_level_bounds(&self)
        requires
            self.wf(),
        ensures
            self.level_is_top(),
            self@.len() == 0 ==> self.spec_level() == 0,
    {
        assert forall|l: int| self.spec_level() < l < self.spec_max_level() implies (
        #[trigger] self.level_keys(l)).len() == 0 by {
            assert(self.lanes@[l].len() == 0);
        }
        if self.level > 0 {
            let top = self.lanes@[self.level as int];
            assert(top.contains(top[0]));
            let i = self.lanes@[0].index_of(top[0]);
        }
    }

    /// Law: no slot is lost. Each slot of the arena holds the head or a key
    /// of the list, or is spare.
    pub proof fn lemma_slots_accounted(&self)
        requires
            self.wf(),
        ensures
            self.spec_slots() == 1 + self@.len() + self.spec_spare_slots(),
    {
    }
}

} // verus!
