//! One level of a skip list as the arena holds it: a chain of links from the
//! head through the slots of a lane. The lemmas say how a chain follows a
//! change of the arena.

use crate::model::{is_cut, strictly_increasing};
use crate::node::Node;
use vstd::prelude::*;

verus! {

/// The slot in front of position `p` of a lane: the head in front of the
/// first position.
pub(crate) open spec fn before(lane: Seq<usize>, p: int) -> usize {
    if p <= 0 {
        0
    } else {
        lane[p - 1]
    }
}

/// The slot at position `p` of a lane, if the lane reaches that far.
pub(crate) open spec fn at(lane: Seq<usize>, p: int) -> Option<usize> {
    if 0 <= p < lane.len() {
        Some(lane[p])
    } else {
        None
    }
}

/// The keys of the nodes on a lane, in the order of the lane.
pub(crate) open spec fn lane_keys(nodes: Seq<Node>, lane: Seq<usize>) -> Seq<i32> {
    Seq::new(lane.len(), |i: int| nodes[lane[i] as int].key)
}

/// Slot `s` holds a node other than the head whose tower reaches level `l`.
pub(crate) open spec fn on_level(nodes: Seq<Node>, s: usize, l: int) -> bool {
    0 < s < nodes.len() && l < nodes[s as int].forward@.len()
}

/// The links of level `l` lead from the head through the slots of `lane`, in
/// that order, and end there; the keys grow along the way.
pub(crate) open spec fn lane_linked(nodes: Seq<Node>, lane: Seq<usize>, l: int) -> bool {
    &&& forall|i: int| 0 <= i < lane.len() ==> on_level(nodes, #[trigger] lane[i], l)
    &&& forall|p: int|
        0 <= p <= lane.len() ==> nodes[#[trigger] before(lane, p) as int].forward@[l] == at(
            lane,
            p,
        )
    &&& strictly_increasing(lane_keys(nodes, lane))
}

/// Slot `s` of arena `a` is in `b` too, with the same key, a tower that
/// reaches level `l` if it did, and the same link on level `l`.
pub(crate) open spec fn kept(a: Seq<Node>, b: Seq<Node>, s: usize, l: int) -> bool {
    s < a.len() ==> {
        &&& s < b.len()
        &&& b[s as int].key == a[s as int].key
        &&& 0 <= l < a[s as int].forward@.len() ==> l < b[s as int].forward@.len()
            && b[s as int].forward@[l] == a[s as int].forward@[l]
    }
}

/// `b` is `a` but for the link of level `l` in slot `s`, which is `link`.
pub(crate) open spec fn relinked(
    a: Seq<Node>,
    b: Seq<Node>,
    s: usize,
    l: int,
    link: Option<usize>,
) -> bool {
    &&& b.len() == a.len()
    &&& s < a.len()
    &&& 0 <= l < a[s as int].forward@.len()
    &&& b[s as int].key == a[s as int].key
    &&& b[s as int].forward@ == a[s as int].forward@.update(l, link)
    &&& forall|t: int| 0 <= t < a.len() && t != s ==> b[t] == a[t]
}

/// A changed link leaves every other link, every key and every tower's
/// height as it was.
pub(crate) proof fn lemma_relinked_kept(
    a: Seq<Node>,
    b: Seq<Node>,
    s: usize,
    l: int,
    link: Option<usize>,
)
    requires
        relinked(a, b, s, l, link),
    ensures
        forall|t: usize, j: int| j != l || t != s ==> #[trigger] kept(a, b, t, j),
        forall|t: int|
            0 <= t < a.len() ==> (#[trigger] b[t]).key == a[t].key && b[t].forward@.len()
                == a[t].forward@.len(),
{
}

/// A lane holds no slot twice.
pub(crate) proof fn lemma_lane_distinct(nodes: Seq<Node>, lane: Seq<usize>, l: int)
    requires
        lane_linked(nodes, lane, l),
    ensures
        lane.no_duplicates(),
{
    let keys = lane_keys(nodes, lane);
    assert forall|i: int, j: int| 0 <= i < lane.len() && 0 <= j < lane.len() && i != j implies lane[i]
        != lane[j] by {
        if i < j {
            assert(keys[i] < keys[j]);
        } else {
            assert(keys[j] < keys[i]);
        }
    }
}

/// A chain stays what it is where the arena keeps the head and the nodes of
/// the lane as they are on that level.
pub(crate) proof fn lemma_lane_frame(a: Seq<Node>, b: Seq<Node>, lane: Seq<usize>, l: int)
    requires
        lane_linked(a, lane, l),
        a.len() > 0,
        0 <= l < a[0].forward@.len(),
        kept(a, b, 0, l),
        forall|i: int| 0 <= i < lane.len() ==> kept(a, b, #[trigger] lane[i], l),
    ensures
        lane_linked(b, lane, l),
        lane_keys(b, lane) == lane_keys(a, lane),
{
    assert forall|i: int| 0 <= i < lane.len() implies on_level(b, #[trigger] lane[i], l) by {
        assert(on_level(a, lane[i], l));
        assert(kept(a, b, lane[i], l));
    }
    assert(lane_keys(b, lane) =~= lane_keys(a, lane));
    assert forall|p: int| 0 <= p <= lane.len() implies b[#[trigger] before(lane, p) as int].forward@[l]
        == at(lane, p) by {
        assert(a[before(lane, p) as int].forward@[l] == at(lane, p));
        if p > 0 {
            assert(on_level(a, lane[p - 1], l));
            assert(kept(a, b, lane[p - 1], l));
        }
    }
}

/// Putting slot `n` into a chain at position `p`: `n` links to what stood at
/// `p`, the node in front of `p` links to `n`, and nothing else changes on
/// level `l`.
pub(crate) proof fn lemma_lane_splice(
    a: Seq<Node>,
    b: Seq<Node>,
    lane: Seq<usize>,
    l: int,
    p: int,
    n: usize,
)
    requires
        lane_linked(a, lane, l),
        on_level(b, n, l),
        !lane.contains(n),
        is_cut(lane_keys(a, lane), b[n as int].key, p),
        !lane_keys(a, lane).contains(b[n as int].key),
        b[n as int].forward@[l] == at(lane, p),
        b[before(lane, p) as int].forward@[l] == Some(n),
        forall|s: usize|
            s == 0 || lane.contains(s) ==> {
                &&& s < a.len() ==> s < b.len()
                &&& (#[trigger] b[s as int]).key == a[s as int].key
                &&& b[s as int].forward@.len() == a[s as int].forward@.len()
                &&& s != before(lane, p) ==> b[s as int].forward@[l] == a[s as int].forward@[l]
            },
    ensures
        lane_linked(b, lane.insert(p, n), l),
        lane_keys(b, lane.insert(p, n)) == lane_keys(a, lane).insert(p, b[n as int].key),
{
    let grown = lane.insert(p, n);
    let keys = lane_keys(a, lane);
    let key = b[n as int].key;
    lemma_lane_distinct(a, lane, l);
    assert forall|i: int| 0 <= i < lane.len() implies lane.contains(#[trigger] lane[i]) by {}
    assert(lane_keys(b, grown) =~= keys.insert(p, key)) by {
        assert forall|i: int| 0 <= i < grown.len() implies lane_keys(b, grown)[i] == keys.insert(
            p,
            key,
        )[i] by {
            if i < p {
                assert(lane.contains(lane[i]));
            } else if i > p {
                assert(lane.contains(lane[i - 1]));
            }
        }
    }
    assert forall|i: int| 0 <= i < grown.len() implies on_level(b, #[trigger] grown[i], l) by {
        if i < p {
            assert(on_level(a, lane[i], l));
        } else if i > p {
            assert(on_level(a, lane[i - 1], l));
        }
    }
    assert forall|q: int| 0 <= q <= grown.len() implies b[#[trigger] before(grown, q) as int].forward@[l]
        == at(grown, q) by {
        if q < p {
            assert(before(grown, q) == before(lane, q));
            assert(a[before(lane, q) as int].forward@[l] == at(lane, q));
            if q > 0 {
                assert(lane.contains(lane[q - 1]));
            }
        } else if q == p {
            assert(before(grown, q) == before(lane, p));
        } else if q == p + 1 {
            assert(before(grown, q) == n);
        } else {
            assert(before(grown, q) == before(lane, q - 1));
            assert(a[before(lane, q - 1) as int].forward@[l] == at(lane, q - 1));
            assert(lane.contains(lane[q - 2]));
        }
    }
    assert forall|i: int, j: int| 0 <= i < j < grown.len() implies keys.insert(p, key)[i]
        < keys.insert(p, key)[j] by {
        let ii = if i < p { i } else { i - 1 };
        let jj = if j < p { j } else { j - 1 };
        if i != p && j != p {
            assert(keys[ii] < keys[jj]);
        } else if i == p {
            assert(keys[jj] >= key);
            assert(keys.contains(keys[jj]));
        } else {
            assert(keys[ii] < key);
        }
    }
}

/// Taking the slot at position `p` out of a chain: the node in front of it
/// links to what stood behind it, and nothing else changes on level `l` but
/// the node that left.
pub(crate) proof fn lemma_lane_unlink(
    a: Seq<Node>,
    b: Seq<Node>,
    lane: Seq<usize>,
    l: int,
    p: int,
)
    requires
        lane_linked(a, lane, l),
        0 <= p < lane.len(),
        b[before(lane, p) as int].forward@[l] == a[lane[p] as int].forward@[l],
        forall|s: usize|
            (s == 0 || lane.contains(s)) && s != lane[p] ==> {
                &&& s < a.len() ==> s < b.len()
                &&& (#[trigger] b[s as int]).key == a[s as int].key
                &&& b[s as int].forward@.len() == a[s as int].forward@.len()
                &&& s != before(lane, p) ==> b[s as int].forward@[l] == a[s as int].forward@[l]
            },
    ensures
        lane_linked(b, lane.remove(p), l),
        lane_keys(b, lane.remove(p)) == lane_keys(a, lane).remove(p),
{
    let rest = lane.remove(p);
    let keys = lane_keys(a, lane);
    lemma_lane_distinct(a, lane, l);
    assert forall|i: int| 0 <= i < lane.len() implies lane.contains(#[trigger] lane[i]) by {}
    assert(forall|i: int| 0 <= i < lane.len() ==> on_level(a, #[trigger] lane[i], l));
    assert(lane_keys(b, rest) =~= keys.remove(p)) by {
        assert forall|i: int| 0 <= i < rest.len() implies lane_keys(b, rest)[i] == keys.remove(p)[i] by {
            if i < p {
                assert(lane.contains(lane[i]));
            } else {
                assert(lane.contains(lane[i + 1]));
            }
        }
    }
    assert forall|i: int| 0 <= i < rest.len() implies on_level(b, #[trigger] rest[i], l) by {
        if i < p {
            assert(on_level(a, lane[i], l));
            assert(lane.contains(lane[i]));
        } else {
            assert(on_level(a, lane[i + 1], l));
            assert(lane.contains(lane[i + 1]));
        }
    }
    assert forall|q: int| 0 <= q <= rest.len() implies b[#[trigger] before(rest, q) as int].forward@[l]
        == at(rest, q) by {
        if q < p {
            assert(before(rest, q) == before(lane, q));
            assert(a[before(lane, q) as int].forward@[l] == at(lane, q));
            if q > 0 {
                assert(lane.contains(lane[q - 1]));
            }
        } else if q == p {
            assert(before(rest, q) == before(lane, p));
            assert(a[before(lane, p + 1) as int].forward@[l] == at(lane, p + 1));
        } else {
            assert(before(rest, q) == before(lane, q + 1));
            assert(a[before(lane, q + 1) as int].forward@[l] == at(lane, q + 1));
            assert(lane.contains(lane[q]));
        }
    }
    assert forall|i: int, j: int| 0 <= i < j < rest.len() implies keys.remove(p)[i] < keys.remove(
        p,
    )[j] by {
        let ii = if i < p { i } else { i + 1 };
        let jj = if j < p { j } else { j + 1 };
        assert(keys[ii] < keys[jj]);
    }
}

/// What a lane holds once `n` was put in: `n`, and what it held.
pub(crate) proof fn lemma_insert_contains(lane: Seq<usize>, p: int, n: usize, s: usize)
    requires
        0 <= p <= lane.len(),
    ensures
        lane.insert(p, n).contains(s) <==> s == n || lane.contains(s),
{
    let grown = lane.insert(p, n);
    if grown.contains(s) {
        let i = grown.index_of(s);
        if i < p {
            assert(lane[i] == s);
        } else if i > p {
            assert(lane[i - 1] == s);
        }
    }
    if s == n {
        assert(grown[p] == s);
    } else if lane.contains(s) {
        let i = lane.index_of(s);
        if i < p {
            assert(grown[i] == s);
        } else {
            assert(grown[i + 1] == s);
        }
    }
}

/// What a lane without a slot twice holds once the slot at `p` was taken
/// out: what it held, but for that slot.
pub(crate) proof fn lemma_remove_contains(lane: Seq<usize>, p: int, s: usize)
    requires
        0 <= p < lane.len(),
        lane.no_duplicates(),
    ensures
        lane.remove(p).contains(s) <==> s != lane[p] && lane.contains(s),
{
    let rest = lane.remove(p);
    if rest.contains(s) {
        let i = rest.index_of(s);
        if i < p {
            assert(lane[i] == s);
        } else {
            assert(lane[i + 1] == s);
        }
    }
    if s != lane[p] && lane.contains(s) {
        let i = lane.index_of(s);
        if i < p {
            assert(rest[i] == s);
        } else {
            assert(rest[i - 1] == s);
        }
    }
}

} // verus!
