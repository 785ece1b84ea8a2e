//! One tower of a skip list.

use vstd::prelude::*;

verus! {

/// A key with one forward link for each level that its tower reaches.
///
/// A link holds the arena slot of the next node on that level, or `None` at
/// the end of the level.
pub(crate) struct Node {
    pub(crate) key: i32,
    pub(crate) forward: Vec<Option<usize>>,
}

impl Node {
    /// A node for `key` whose tower has `levels` levels, none of them linked.
    pub(crate) fn new(key: i32, levels: usize) -> (node: Node)
        ensures
            node.key == key,
            node.forward@ == Seq::new(levels as nat, |i: int| None::<usize>),
    {
        let mut forward: Vec<Option<usize>> = Vec::new();
        while forward.len() < levels
            invariant
                forward.len() <= levels,
                forall|i: int| 0 <= i < forward.len() ==> forward[i] == None::<usize>,
            decreases levels - forward.len(),
        {
            forward.push(None);
        }
        assert(forward@ =~= Seq::new(levels as nat, |i: int| None::<usize>));
        Node { key, forward }
    }
}

} // verus!
