//! The list laid out as a grid: a row for each level and a column for each
//! key, so that a tower stands in one column.

use crate::list::SkipList;
use crate::model::strictly_increasing;
use vstd::prelude::*;

verus! {

/// The row of a level whose keys are `lane`, over the columns `base`: a cell
/// holds the key of its column if the level has that key, and is empty if
/// not.
pub open spec fn grid_row(base: Seq<i32>, lane: Seq<i32>) -> Seq<Option<i32>> {
    Seq::new(
        base.len(),
        |c: int|
            if lane.contains(base[c]) {
                Some(base[c])
            } else {
                None
            },
    )
}

/// Lays the keys `lane` of one level out over the columns `base`.
///
/// Both run in ascending order, so one pass over each is enough.
pub fn align(base: &Vec<i32>, lane: &Vec<i32>) -> (row: Vec<Option<i32>>)
    requires
        strictly_increasing(base@),
        strictly_increasing(lane@),
    ensures
        row@ == grid_row(base@, lane@),
{
    let mut row: Vec<Option<i32>> = Vec::new();
    let mut j: usize = 0;
    let mut c: usize = 0;
    while c < base.len()
        invariant
            strictly_increasing(base@),
            strictly_increasing(lane@),
            0 <= c <= base.len(),
            0 <= j <= lane.len(),
            row.len() == c,
            forall|i: int| 0 <= i < c ==> row[i] == grid_row(base@, lane@)[i],
            forall|i: int| 0 <= i < j && c < base.len() ==> lane[i] < base[c as int],
        decreases base.len() - c,
    {
        let key = base[c];
        while j < lane.len() && lane[j] < key
            invariant
                0 <= j <= lane.len(),
                forall|i: int| 0 <= i < j ==> lane[i] < key,
            decreases lane.len() - j,
        {
            j = j + 1;
        }
        let cell = if j < lane.len() && lane[j] == key {
            Some(key)
        } else {
            None
        };
        proof {
            if lane@.contains(key) {
                let i = lane@.index_of(key);
                if i > j {
                    assert(lane[j as int] < lane[i]);
                }
            }
            assert forall|i: int| 0 <= i < j && c + 1 < base.len() implies lane[i] < base[c + 1] by {
                assert(base[c as int] < base[c + 1]);
            }
        }
        row.push(cell);
        c = c + 1;
    }
    assert(row@ =~= grid_row(base@, lane@));
    row
}

impl SkipList {
    /// The list as a grid: row `l` is level `l` laid out over the keys of
    /// the list, which are the columns.
    ///
    /// There is a row for each level that the list was made with; the rows
    /// above `level` are empty.
    pub fn grid(&self) -> (rows: Vec<Vec<Option<i32>>>)
        requires
            self.wf(),
        ensures
            rows.len() == self.spec_max_level(),
            forall|l: int|
                0 <= l < rows.len() ==> (#[trigger] rows[l])@ == grid_row(self@, self.level_keys(l)),
    {
        let base = self.keys_at(0);
        let mut rows: Vec<Vec<Option<i32>>> = Vec::new();
        let mut l: usize = 0;
        proof {
            self.lemma_level_bounds();
            self.lemma_levels_sorted(0);
        }
        while l < self.max_level()
            invariant
                self.wf(),
                0 < self.spec_max_level(),
                base@ == self@,
                strictly_increasing(base@),
                0 <= l <= self.spec_max_level(),
                rows.len() == l,
                forall|j: int|
                    0 <= j < rows.len() ==> (#[trigger] rows[j])@ == grid_row(
                        self@,
                        self.level_keys(j),
                    ),
            decreases self.spec_max_level() - l,
        {
            let lane = self.keys_at(l);
            proof {
                self.lemma_levels_sorted(l as int);
            }
            rows.push(align(&base, &lane));
            l = l + 1;
        }
        rows
    }
}

} // verus!
