//! The mathematical model of one level of a skip list: a strictly increasing
//! sequence of keys, with the two operations that keep it so.

use vstd::prelude::*;

verus! {

/// Every key is smaller than each key after it.
pub open spec fn strictly_increasing(s: Seq<i32>) -> bool {
    forall|i: int, j: int| 0 <= i < j < s.len() ==> s[i] < s[j]
}

/// The number of keys of `s` that are smaller than `k`.
pub open spec fn rank(s: Seq<i32>, k: i32) -> nat
    decreases s.len(),
{
    if s.len() == 0 {
        0
    } else {
        rank(s.drop_last(), k) + if s.last() < k {
            1nat
        } else {
            0nat
        }
    }
}

/// `s` with `k` put behind the keys smaller than it; `s` itself where it
/// holds `k` already.
pub open spec fn with_key(s: Seq<i32>, k: i32) -> Seq<i32> {
    if s.contains(k) {
        s
    } else {
        s.insert(rank(s, k) as int, k)
    }
}

/// `s` with `k` taken out; `s` itself where it does not hold `k`.
pub open spec fn without_key(s: Seq<i32>, k: i32) -> Seq<i32> {
    if s.contains(k) {
        s.remove(s.index_of(k))
    } else {
        s
    }
}

/// `p` parts `s` into the keys smaller than `k`, before it, and the others.
pub open spec fn is_cut(s: Seq<i32>, k: i32, p: int) -> bool {
    &&& 0 <= p <= s.len()
    &&& forall|i: int| 0 <= i < p ==> s[i] < k
    &&& forall|i: int| p <= i < s.len() ==> s[i] >= k
}

pub proof fn lemma_rank_bound(s: Seq<i32>, k: i32)
    ensures
        rank(s, k) <= s.len(),
    decreases s.len(),
{
    if s.len() > 0 {
        lemma_rank_bound(s.drop_last(), k);
    }
}

/// A position that parts `s` at `k` is the rank of `k`.
pub proof fn lemma_cut_is_rank(s: Seq<i32>, k: i32, p: int)
    requires
        is_cut(s, k, p),
    ensures
        rank(s, k) == p,
    decreases s.len(),
{
    if s.len() > 0 {
        let t = s.drop_last();
        if p == s.len() {
            assert(is_cut(t, k, p - 1));
            lemma_cut_is_rank(t, k, p - 1);
        } else {
            assert(is_cut(t, k, p));
            lemma_cut_is_rank(t, k, p);
        }
    }
}

/// In a strictly increasing sequence the rank of `k` parts it at `k`.
pub proof fn lemma_rank_is_cut(s: Seq<i32>, k: i32)
    requires
        strictly_increasing(s),
    ensures
        is_cut(s, k, rank(s, k) as int),
    decreases s.len(),
{
    if s.len() > 0 {
        let t = s.drop_last();
        assert(strictly_increasing(t));
        lemma_rank_is_cut(t, k);
        lemma_rank_bound(t, k);
        let r = rank(t, k) as int;
        assert(forall|i: int| 0 <= i < t.len() ==> t[i] == s[i]);
        if s.last() < k {
            assert forall|i: int| 0 <= i < t.len() implies t[i] < k by {
                assert(s[i] < s[s.len() - 1]);
            }
            if r < t.len() {
                assert(t[r] >= k);
            }
            assert(r == t.len());
        }
        let q = rank(s, k) as int;
        assert forall|i: int| 0 <= i < q implies s[i] < k by {
            if i < t.len() {
                assert(t[i] == s[i]);
            }
        }
        assert forall|i: int| q <= i < s.len() implies s[i] >= k by {
            if i < t.len() {
                assert(t[i] == s[i]);
            }
        }
    }
}

/// Where `p` parts `s` at a key that `s` does not hold, the key goes in at `p`.
pub proof fn lemma_with_key_at(s: Seq<i32>, k: i32, p: int)
    requires
        is_cut(s, k, p),
        !s.contains(k),
    ensures
        with_key(s, k) == s.insert(p, k),
{
    lemma_cut_is_rank(s, k, p);
}

/// Where a strictly increasing `s` holds `k` at `p`, `k` leaves from `p`.
pub proof fn lemma_without_key_at(s: Seq<i32>, k: i32, p: int)
    requires
        strictly_increasing(s),
        0 <= p < s.len(),
        s[p] == k,
    ensures
        without_key(s, k) == s.remove(p),
{
    assert(s.contains(k));
    let i = s.index_of(k);
    if i < p {
        assert(s[i] < s[p]);
    }
    if p < i {
        assert(s[p] < s[i]);
    }
}

/// `with_key` puts `k` in: the result holds `k`, and besides `k` what `s`
/// held. Its length is that of `s`, and one more if `k` is new.
pub proof fn lemma_with_key_holds(s: Seq<i32>, k: i32)
    ensures
        with_key(s, k).contains(k),
        forall|j: i32| with_key(s, k).contains(j) <==> j == k || s.contains(j),
        with_key(s, k).len() == if s.contains(k) {
            s.len()
        } else {
            s.len() + 1
        },
{
    let t = with_key(s, k);
    if !s.contains(k) {
        lemma_rank_bound(s, k);
        let r = rank(s, k) as int;
        assert(t[r] == k);
        assert forall|j: i32| t.contains(j) <==> j == k || s.contains(j) by {
            if t.contains(j) {
                let i = t.index_of(j);
                if i < r {
                    assert(s[i] == j);
                } else if i > r {
                    assert(s[i - 1] == j);
                }
            }
            if s.contains(j) {
                let i = s.index_of(j);
                if i < r {
                    assert(t[i] == j);
                } else {
                    assert(t[i + 1] == j);
                }
            }
        }
    }
}

/// `with_key` keeps a strictly increasing sequence strictly increasing.
pub proof fn lemma_with_key_sorted(s: Seq<i32>, k: i32)
    requires
        strictly_increasing(s),
    ensures
        strictly_increasing(with_key(s, k)),
{
    if !s.contains(k) {
        lemma_rank_is_cut(s, k);
        let r = rank(s, k) as int;
        let t = s.insert(r, k);
        assert forall|i: int, j: int| 0 <= i < j < t.len() implies t[i] < t[j] by {
            let ii = if i < r { i } else { i - 1 };
            let jj = if j < r { j } else { j - 1 };
            if i != r && j != r {
                assert(s[ii] < s[jj]);
            } else if i == r {
                assert(s[jj] >= k);
                assert(s.contains(s[jj]));
            } else {
                assert(s[ii] < k);
            }
        }
    }
}

/// `without_key` takes `k` out of a strictly increasing sequence: the result
/// holds what `s` held but for `k`, and is strictly increasing. Its length
/// is that of `s`, and one less if `s` held `k`.
pub proof fn lemma_without_key_holds(s: Seq<i32>, k: i32)
    requires
        strictly_increasing(s),
    ensures
        strictly_increasing(without_key(s, k)),
        forall|j: i32| without_key(s, k).contains(j) <==> j != k && s.contains(j),
        without_key(s, k).len() == if s.contains(k) {
            s.len() - 1
        } else {
            s.len() as int
        },
{
    if s.contains(k) {
        let r = s.index_of(k);
        let t = s.remove(r);
        assert forall|i: int, j: int| 0 <= i < j < t.len() implies t[i] < t[j] by {
            let ii = if i < r { i } else { i + 1 };
            let jj = if j < r { j } else { j + 1 };
            assert(s[ii] < s[jj]);
        }
        assert forall|j: i32| t.contains(j) <==> j != k && s.contains(j) by {
            if t.contains(j) {
                let i = t.index_of(j);
                let ii = if i < r { i } else { i + 1 };
                assert(s[ii] == j);
                if ii < r {
                    assert(s[ii] < s[r]);
                } else {
                    assert(s[r] < s[ii]);
                }
            }
            if j != k && s.contains(j) {
                let i = s.index_of(j);
                if i < r {
                    assert(t[i] == j);
                } else {
                    assert(t[i - 1] == j);
                }
            }
        }
    }
}

/// Law: a key that is put in twice is in once. The second `with_key` changes
/// nothing.
pub proof fn lemma_with_key_twice(s: Seq<i32>, k: i32)
    ensures
        with_key(with_key(s, k), k) == with_key(s, k),
{
    lemma_with_key_holds(s, k);
}

/// Law: taking out a key that is not there changes nothing.
pub proof fn lemma_without_absent_key(s: Seq<i32>, k: i32)
    requires
        !s.contains(k),
    ensures
        without_key(s, k) == s,
{
}

/// Law: putting a new key in and taking it out again gives back the
/// sequence as it was.
pub proof fn lemma_with_then_without(s: Seq<i32>, k: i32)
    requires
        !s.contains(k),
    ensures
        without_key(with_key(s, k), k) == s,
{
    lemma_rank_bound(s, k);
    let r = rank(s, k) as int;
    let t = s.insert(r, k);
    assert(t[r] == k);
    let i = t.index_of(k);
    if i < r {
        assert(s[i] == k);
    } else if i > r {
        assert(s[i - 1] == k);
    }
    assert(t.remove(r) =~= s);
}

} // verus!
