//! The walk down the levels, which a search, an insertion and a deletion share.

use super::SkipList;
use crate::lane::{at, before, lane_keys, lane_linked, on_level};
use crate::model::is_cut;
use vstd::prelude::*;

verus! {

impl SkipList {
    /// Where the walk stands on level `l + 1`, it can go on on level `l`: the
    /// position behind `cur` there has only smaller keys in front of it.
    pub(super) proof fn lemma_descend(&self, cur: usize, l: int, key: i32) -> (p: int)
        requires
            self.wf(),
            0 <= l < self.max_level,
            cur == 0 || (l + 1 < self.max_level && self.lanes@[l + 1].contains(cur)
                && self.nodes@[cur as int].key < key),
        ensures
            0 <= p <= self.lanes@[l].len(),
            cur == before(self.lanes@[l], p),
            forall|i: int| 0 <= i < p ==> lane_keys(self.nodes@, self.lanes@[l])[i] < key,
    {
        if cur == 0 {
            0
        } else {
            let lane = self.lanes@[l];
            assert(lane.contains(cur));
            let j = lane.index_of(cur);
            let keys = lane_keys(self.nodes@, lane);
            assert(lane_linked(self.nodes@, lane, l));
            assert forall|i: int| 0 <= i < j + 1 implies keys[i] < key by {
                if i < j {
                    assert(keys[i] < keys[j]);
                }
            }
            j + 1
        }
    }

    /// Walks along level `l` from `cur` past every node whose key is smaller
    /// than `key`, and returns the slot of the last of them.
    pub(super) fn advance(&self, cur: usize, l: usize, key: i32, Ghost(p): Ghost<int>) -> (res: (
        usize,
        Ghost<int>,
    ))
        requires
            self.wf(),
            l < self.max_level,
            0 <= p <= self.lanes@[l as int].len(),
            cur == before(self.lanes@[l as int], p),
            forall|i: int| 0 <= i < p ==> lane_keys(self.nodes@, self.lanes@[l as int])[i] < key,
        ensures
            is_cut(lane_keys(self.nodes@, self.lanes@[l as int]), key, res.1@),
            res.0 == before(self.lanes@[l as int], res.1@),
    {
        let mut cur = cur;
        let ghost mut p = p;
        let ghost lane = self.lanes@[l as int];
        let ghost keys = lane_keys(self.nodes@, lane);
        loop
            invariant
                self.wf(),
                l < self.max_level,
                lane == self.lanes@[l as int],
                keys == lane_keys(self.nodes@, lane),
                0 <= p <= lane.len(),
                cur == before(lane, p),
                forall|i: int| 0 <= i < p ==> keys[i] < key,
            ensures
                is_cut(keys, key, p),
                cur == before(lane, p),
            decreases lane.len() - p,
        {
            proof {
                assert(lane_linked(self.nodes@, lane, l as int));
                assert(self.nodes@[before(lane, p) as int].forward@[l as int] == at(lane, p));
                if p > 0 {
                    assert(on_level(self.nodes@, lane[p - 1], l as int));
                }
            }
            match self.nodes[cur].forward[l] {
                None => {
                    break ;
                },
                Some(next) => {
                    assert(next == lane[p]);
                    assert(on_level(self.nodes@, lane[p], l as int));
                    if self.nodes[next].key < key {
                        assert(keys[p] < key);
                        cur = next;
                        proof {
                            p = p + 1;
                        }
                    } else {
                        proof {
                            assert forall|i: int| p <= i < keys.len() implies keys[i] >= key by {
                                if i > p {
                                    assert(keys[p] < keys[i]);
                                }
                            }
                        }
                        break ;
                    }
                },
            }
        }
        (cur, Ghost(p))
    }

    /// The update vector for `key`: for each level from 0 to `top`, the slot
    /// of the last node on that level whose key is smaller than `key`, or
    /// the head's slot where the level has none.
    ///
    /// The walk starts on the highest level in use, or on `top` if that is
    /// higher, and goes down to level 0.
    pub(super) fn fill_update_vector(&self, key: i32, top: usize) -> (res: (Vec<usize>, Ghost<Seq<int>>))
        requires
            self.wf(),
            top < self.max_level,
        ensures
            res.0.len() == top + 1,
            res.1@.len() == top + 1,
            forall|l: int| 0 <= l <= top ==> #[trigger] self.is_pred(l, key, res.0[l], res.1@[l]),
    {
        let start = if top > self.level {
            top
        } else {
            self.level
        };
        let mut update: Vec<usize> = Vec::new();
        while update.len() <= top
            invariant
                update.len() <= top + 1,
                top < self.max_level,
            decreases top + 1 - update.len(),
        {
            update.push(0);
        }
        let ghost mut cuts: Seq<int> = Seq::new((top + 1) as nat, |l: int| 0int);
        let mut cur: usize = 0;
        let mut l: usize = start + 1;
        while l > 0
            invariant
                self.wf(),
                top <= start < self.max_level,
                0 <= l <= start + 1,
                update.len() == top + 1,
                cuts.len() == top + 1,
                cur == 0 || (l < self.max_level && self.lanes@[l as int].contains(cur)
                    && self.nodes@[cur as int].key < key),
                forall|j: int| l <= j <= top ==> #[trigger] self.is_pred(j, key, update[j], cuts[j]),
            decreases l,
        {
            l = l - 1;
            let ghost lane = self.lanes@[l as int];
            let ghost p = self.lemma_descend(cur, l as int, key);
            let (last, Ghost(q)) = self.advance(cur, l, key, Ghost(p));
            cur = last;
            if l <= top {
                update[l] = cur;
                proof {
                    cuts = cuts.update(l as int, q);
                }
            }
            proof {
                if q > 0 {
                    assert(lane_keys(self.nodes@, lane)[q - 1] < key);
                    assert(lane[q - 1] == cur);
                }
            }
        }
        (update, Ghost(cuts))
    }

    /// The node that holds `key`, if there is one: it stands on level 0
    /// right behind `pred`, the last node with a smaller key.
    pub(super) fn holder(&self, pred: usize, key: i32, Ghost(cut): Ghost<int>) -> (res: Option<usize>)
        requires
            self.wf(),
            self.is_pred(0, key, pred, cut),
        ensures
            res is Some <==> self@.contains(key),
            res matches Some(t) ==> at(self.lanes@[0], cut) == Some(t) && self.nodes@[t as int].key
                == key,
    {
        let ghost lane = self.lanes@[0];
        let ghost keys = lane_keys(self.nodes@, lane);
        proof {
            assert(lane_linked(self.nodes@, lane, 0));
            assert(self.nodes@[before(lane, cut) as int].forward@[0] == at(lane, cut));
            if cut > 0 {
                assert(on_level(self.nodes@, lane[cut - 1], 0));
            }
            if cut < lane.len() {
                assert(on_level(self.nodes@, lane[cut], 0));
                assert(keys[cut] >= key);
            }
            assert forall|i: int| cut < i < keys.len() implies keys[i] != key by {
                assert(keys[cut] < keys[i]);
            }
            assert forall|i: int| 0 <= i < cut implies keys[i] != key by {}
        }
        match self.nodes[pred].forward[0] {
            None => None,
            Some(next) => {
                if self.nodes[next].key == key {
                    assert(keys[cut] == key);
                    Some(next)
                } else {
                    None
                }
            },
        }
    }

    /// Looks for `key`: `Some(key)` if the list holds it, `None` if not.
    ///
    /// The walk starts on the highest level in use and goes down a level
    /// wherever the next key is too large; it ends at the first level on
    /// which it meets `key`.
    pub fn search(&self, key: i32) -> (res: Option<i32>)
        requires
            self.wf(),
        ensures
            res == if self@.contains(key) {
                Some(key)
            } else {
                None
            },
    {
        let mut cur: usize = 0;
        let mut l: usize = self.level + 1;
        while l > 0
            invariant
                self.wf(),
                0 <= l <= self.level + 1,
                cur == 0 || (l < self.max_level && self.lanes@[l as int].contains(cur)
                    && self.nodes@[cur as int].key < key),
                l == 0 ==> !self@.contains(key),
            decreases l,
        {
            l = l - 1;
            let ghost lane = self.lanes@[l as int];
            let ghost keys = lane_keys(self.nodes@, lane);
            let ghost p = self.lemma_descend(cur, l as int, key);
            let (last, Ghost(q)) = self.advance(cur, l, key, Ghost(p));
            cur = last;
            proof {
                assert(lane_linked(self.nodes@, lane, l as int));
                assert(self.nodes@[before(lane, q) as int].forward@[l as int] == at(lane, q));
                if q > 0 {
                    assert(on_level(self.nodes@, lane[q - 1], l as int));
                    assert(keys[q - 1] < key);
                }
            }
            match self.nodes[cur].forward[l] {
                None => {},
                Some(next) => {
                    assert(next == lane[q]);
                    assert(on_level(self.nodes@, lane[q], l as int));
                    let found = self.nodes[next].key;
                    if found == key {
                        proof {
                            assert(lane.contains(next));
                            assert(self.lanes@[0].contains(next));
                            let i = self.lanes@[0].index_of(next);
                            assert(self@[i] == key);
                        }
                        return Some(found);
                    }
                },
            }
            proof {
                if l == 0 {
                    assert forall|i: int| 0 <= i < keys.len() implies keys[i] != key by {
                        if i > q {
                            assert(keys[q] < keys[i]);
                        }
                    }
                }
            }
        }
        None
    }
}

} // verus!
