//! The keys of each level, for whoever wants to look at a list.

use super::SkipList;
use crate::lane::{at, before, lane_keys, lane_linked, on_level};
use vstd::prelude::*;

verus! {

impl SkipList {
    /// The keys of level `l` in ascending order; none for a level that the
    /// list does not have.
    pub fn keys_at(&self, l: usize) -> (keys: Vec<i32>)
        requires
            self.wf(),
        ensures
            keys@ == if l < self.spec_max_level() {
                self.level_keys(l as int)
            } else {
                Seq::empty()
            },
    {
        let mut keys: Vec<i32> = Vec::new();
        if l >= self.max_level {
            return keys;
        }
        let ghost lane = self.lanes@[l as int];
        let ghost all = lane_keys(self.nodes@, lane);
        let ghost mut p: int = 0;
        proof {
            assert(lane_linked(self.nodes@, lane, l as int));
            assert(self.nodes@[before(lane, 0) as int].forward@[l as int] == at(lane, 0));
        }
        let mut cur = self.nodes[0].forward[l];
        loop
            invariant
                self.wf(),
                l < self.max_level,
                lane == self.lanes@[l as int],
                all == lane_keys(self.nodes@, lane),
                0 <= p <= lane.len(),
                cur == at(lane, p),
                keys@ == all.subrange(0, p),
            ensures
                keys@ == all,
            decreases lane.len() - p,
        {
            match cur {
                None => {
                    assert(all.subrange(0, p) == all);
                    break ;
                },
                Some(slot) => {
                    proof {
                        assert(lane_linked(self.nodes@, lane, l as int));
                        assert(on_level(self.nodes@, lane[p], l as int));
                        assert(self.nodes@[before(lane, p + 1) as int].forward@[l as int] == at(
                            lane,
                            p + 1,
                        ));
                        assert(all.subrange(0, p + 1) == all.subrange(0, p).push(all[p]));
                    }
                    keys.push(self.nodes[slot].key);
                    cur = self.nodes[slot].forward[l];
                    proof {
                        p = p + 1;
                    }
                },
            }
        }
        keys
    }

    /// Each level in use, from 0 up to `level`, with its keys in ascending
    /// order.
    pub fn levels(&self) -> (out: Vec<(usize, Vec<i32>)>)
        requires
            self.wf(),
        ensures
            out.len() == self.spec_level() + 1,
            forall|l: int|
                0 <= l < out.len() ==> (#[trigger] out[l]).0 == l && out[l].1@ == self.level_keys(l),
    {
        let mut out: Vec<(usize, Vec<i32>)> = Vec::new();
        let mut l: usize = 0;
        while l <= self.level
            invariant
                self.wf(),
                0 <= l <= self.level + 1,
                out.len() == l,
                forall|j: int|
                    0 <= j < out.len() ==> (#[trigger] out[j]).0 == j && out[j].1@
                        == self.level_keys(j),
            decreases self.level + 1 - l,
        {
            let keys = self.keys_at(l);
            out.push((l, keys));
            l = l + 1;
        }
        out
    }
}

} // verus!
