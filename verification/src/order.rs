//! Painter's order: faces sorted from the farthest to the nearest by an
//! integer depth key, faces of equal depth keeping their relative order.
use vstd::prelude::*;

use crate::object::{is_permutation, Mesh};

verus! {

/// Face `a` is drawn before face `b`: its depth key is larger, or the keys
/// are equal and `a` came first.
pub open spec fn comes_before(keys: Seq<u32>, a: usize, b: usize) -> bool {
    keys[a as int] > keys[b as int] || (keys[a as int] == keys[b as int] && a < b)
}

/// Every face of `order` comes before every face listed after it.
pub open spec fn painter_sorted(keys: Seq<u32>, order: Seq<usize>) -> bool {
    forall|k: int, l: int|
        #![trigger order[k], order[l]]
        0 <= k < l < order.len() ==> comes_before(keys, order[k], order[l])
}

/// `order` lists every face once, from the largest depth key to the
/// smallest, faces of equal key in their former order.
pub open spec fn is_painter_order(keys: Seq<u32>, order: Seq<usize>) -> bool {
    &&& is_permutation(order, keys.len() as int)
    &&& painter_sorted(keys, order)
}

fn comes_before_exec(keys: &Vec<u32>, a: usize, b: usize) -> (r: bool)
    requires
        a < keys@.len(),
        b < keys@.len(),
    ensures
        r == comes_before(keys@, a, b),
{
    keys[a] > keys[b] || (keys[a] == keys[b] && a < b)
}

fn merge(keys: &Vec<u32>, a: &Vec<usize>, b: &Vec<usize>, lo: usize, mid: usize, hi: usize) -> (r: Vec<usize>)
    requires
        lo <= mid <= hi <= keys@.len(),
        painter_sorted(keys@, a@),
        painter_sorted(keys@, b@),
        forall|p: int| 0 <= p < a@.len() ==> lo <= #[trigger] a@[p] < mid,
        forall|q: int| 0 <= q < b@.len() ==> mid <= #[trigger] b@[q] < hi,
    ensures
        r@.len() == a@.len() + b@.len(),
        forall|k: int| 0 <= k < r@.len() ==> lo <= #[trigger] r@[k] < hi,
        painter_sorted(keys@, r@),
{
    let mut r: Vec<usize> = Vec::new();
    let mut i: usize = 0;
    let mut j: usize = 0;
    while i < a.len() || j < b.len()
        invariant
            lo <= mid <= hi <= keys@.len(),
            painter_sorted(keys@, a@),
            painter_sorted(keys@, b@),
            forall|p: int| 0 <= p < a@.len() ==> lo <= #[trigger] a@[p] < mid,
            forall|q: int| 0 <= q < b@.len() ==> mid <= #[trigger] b@[q] < hi,
            i <= a@.len(),
            j <= b@.len(),
            r@.len() == i + j,
            forall|k: int| 0 <= k < r@.len() ==> lo <= #[trigger] r@[k] < hi,
            painter_sorted(keys@, r@),
            forall|k: int, p: int|
                #![trigger r@[k], a@[p]]
                0 <= k < r@.len() && i <= p < a@.len() ==> comes_before(keys@, r@[k], a@[p]),
            forall|k: int, q: int|
                #![trigger r@[k], b@[q]]
                0 <= k < r@.len() && j <= q < b@.len() ==> comes_before(keys@, r@[k], b@[q]),
        decreases a@.len() + b@.len() - i - j,
    {
        let take_a = if i < a.len() {
            if j < b.len() {
                comes_before_exec(keys, a[i], b[j])
            } else {
                true
            }
        } else {
            false
        };
        let ghost old_r = r@;
        if take_a {
            let x = a[i];
            r.push(x);
            proof {
                assert forall|p: int| i + 1 <= p < a@.len() implies comes_before(keys@, x, #[trigger] a@[p]) by {
                    assert(comes_before(keys@, a@[i as int], a@[p]));
                }
                assert forall|q: int| j <= q < b@.len() implies comes_before(keys@, x, #[trigger] b@[q]) by {
                    if q > j {
                        assert(comes_before(keys@, b@[j as int], b@[q]));
                    }
                }
                assert forall|k: int, l: int|
                    #![trigger r@[k], r@[l]]
                    0 <= k < l < r@.len() implies comes_before(keys@, r@[k], r@[l]) by {
                    if l == r@.len() - 1 {
                        assert(comes_before(keys@, old_r[k], a@[i as int]));
                    } else {
                        assert(comes_before(keys@, old_r[k], old_r[l]));
                    }
                }
                assert forall|k: int, p: int|
                    #![trigger r@[k], a@[p]]
                    0 <= k < r@.len() && i + 1 <= p < a@.len() implies comes_before(keys@, r@[k], a@[p]) by {
                    if k < old_r.len() {
                        assert(comes_before(keys@, old_r[k], a@[p]));
                    }
                }
                assert forall|k: int, q: int|
                    #![trigger r@[k], b@[q]]
                    0 <= k < r@.len() && j <= q < b@.len() implies comes_before(keys@, r@[k], b@[q]) by {
                    if k < old_r.len() {
                        assert(comes_before(keys@, old_r[k], b@[q]));
                    }
                }
            }
            i += 1;
        } else {
            let y = b[j];
            r.push(y);
            proof {
                if i < a@.len() {
                    assert(a@[i as int] != y);
                    assert(comes_before(keys@, y, a@[i as int]));
                }
                assert forall|p: int| i <= p < a@.len() implies comes_before(keys@, y, #[trigger] a@[p]) by {
                    if p > i {
                        assert(comes_before(keys@, a@[i as int], a@[p]));
                    }
                }
                assert forall|q: int| j + 1 <= q < b@.len() implies comes_before(keys@, y, #[trigger] b@[q]) by {
                    assert(comes_before(keys@, b@[j as int], b@[q]));
                }
                assert forall|k: int, l: int|
                    #![trigger r@[k], r@[l]]
                    0 <= k < l < r@.len() implies comes_before(keys@, r@[k], r@[l]) by {
                    if l == r@.len() - 1 {
                        assert(comes_before(keys@, old_r[k], b@[j as int]));
                    } else {
                        assert(comes_before(keys@, old_r[k], old_r[l]));
                    }
                }
                assert forall|k: int, p: int|
                    #![trigger r@[k], a@[p]]
                    0 <= k < r@.len() && i <= p < a@.len() implies comes_before(keys@, r@[k], a@[p]) by {
                    if k < old_r.len() {
                        assert(comes_before(keys@, old_r[k], a@[p]));
                    }
                }
                assert forall|k: int, q: int|
                    #![trigger r@[k], b@[q]]
                    0 <= k < r@.len() && j + 1 <= q < b@.len() implies comes_before(keys@, r@[k], b@[q]) by {
                    if k < old_r.len() {
                        assert(comes_before(keys@, old_r[k], b@[q]));
                    }
                }
            }
            j += 1;
        }
    }
    r
}

fn sort_range(keys: &Vec<u32>, lo: usize, hi: usize) -> (r: Vec<usize>)
    requires
        lo <= hi <= keys@.len(),
    ensures
        r@.len() == hi - lo,
        forall|k: int| 0 <= k < r@.len() ==> lo <= #[trigger] r@[k] < hi,
        painter_sorted(keys@, r@),
    decreases hi - lo,
{
    if hi - lo == 0 {
        return Vec::new();
    }
    if hi - lo == 1 {
        let mut r: Vec<usize> = Vec::new();
        r.push(lo);
        return r;
    }
    let mid = lo + (hi - lo) / 2;
    let a = sort_range(keys, lo, mid);
    let b = sort_range(keys, mid, hi);
    merge(keys, &a, &b, lo, mid, hi)
}

/// The order in which faces with depth keys `keys` are drawn: from the
/// largest key to the smallest, equal keys in index order.
pub fn painter_order(keys: &Vec<u32>) -> (order: Vec<usize>)
    ensures
        is_painter_order(keys@, order@),
{
    let order = sort_range(keys, 0, keys.len());
    proof {
        assert forall|k: int, l: int| 0 <= k < l < order@.len() implies order@[k] != order@[l] by {
            assert(comes_before(keys@, order@[k], order@[l]));
        }
    }
    order
}

/// A list of `n` distinct indices below `n` lists every index below `n`.
proof fn lemma_permutation_covers(order: Seq<usize>, n: int, x: int)
    requires
        is_permutation(order, n),
        0 <= x < n,
    ensures
        exists|p: int| 0 <= p < n && order[p] == x,
{
    let ints = order.map_values(|v: usize| v as int);
    assert(ints.no_duplicates()) by {
        assert forall|i: int, j: int| 0 <= i < ints.len() && 0 <= j < ints.len() && i != j implies ints[i]
            != ints[j] by {
            assert(order[i] != order[j]);
        }
    }
    ints.unique_seq_to_set();
    vstd::set_lib::lemma_int_range(0, n);
    let range = vstd::set_lib::set_int_range(0, n);
    assert(ints.to_set().subset_of(range)) by {
        assert forall|v: int| ints.to_set().contains(v) implies range.contains(v) by {
            let p = choose|p: int| 0 <= p < ints.len() && ints[p] == v;
            assert(order[p] < n);
        }
    }
    vstd::set_lib::lemma_subset_equality(ints.to_set(), range);
    assert(range.contains(x));
    assert(ints.to_set().contains(x));
    let p = choose|p: int| 0 <= p < ints.len() && ints[p] == x;
    assert(order[p] == x);
}

proof fn lemma_painter_orders_agree_at(keys: Seq<u32>, o1: Seq<usize>, o2: Seq<usize>, k: int)
    requires
        is_painter_order(keys, o1),
        is_painter_order(keys, o2),
        0 <= k < keys.len(),
        forall|j: int| 0 <= j < k ==> o1[j] == o2[j],
    ensures
        o1[k] == o2[k],
{
    let n = keys.len() as int;
    let x = o1[k];
    let y = o2[k];
    if x != y {
        lemma_permutation_covers(o1, n, y as int);
        lemma_permutation_covers(o2, n, x as int);
        let p = choose|p: int| 0 <= p < n && o1[p] == y;
        let q = choose|q: int| 0 <= q < n && o2[q] == x;
        if comes_before(keys, x, y) {
            // x precedes y, so in o2 it stands before position k, where o1
            // already holds x again.
            if q > k {
                assert(comes_before(keys, o2[k], o2[q]));
            }
            assert(q < k);
            assert(o1[q] == x);
            assert(o1[q] != o1[k]);
        } else {
            assert(comes_before(keys, y, x));
            if p > k {
                assert(comes_before(keys, o1[k], o1[p]));
            }
            assert(p < k);
            assert(o2[p] == y);
            assert(o2[p] != o2[k]);
        }
    }
}

proof fn lemma_painter_orders_agree_below(keys: Seq<u32>, o1: Seq<usize>, o2: Seq<usize>, k: int)
    requires
        is_painter_order(keys, o1),
        is_painter_order(keys, o2),
        0 <= k <= keys.len(),
    ensures
        forall|j: int| 0 <= j < k ==> o1[j] == o2[j],
    decreases k,
{
    if k > 0 {
        lemma_painter_orders_agree_below(keys, o1, o2, k - 1);
        lemma_painter_orders_agree_at(keys, o1, o2, k - 1);
    }
}

/// The painter's order of a list of depth keys is unique.
pub proof fn painter_order_is_unique(keys: Seq<u32>, o1: Seq<usize>, o2: Seq<usize>)
    requires
        is_painter_order(keys, o1),
        is_painter_order(keys, o2),
    ensures
        o1 == o2,
{
    lemma_painter_orders_agree_below(keys, o1, o2, keys.len() as int);
    assert(o1 =~= o2);
}

/// In a painter's order every index below the number of keys appears
/// exactly once, and a face listed before another has a depth key at least
/// as large, with the smaller index first where the keys are equal.
pub proof fn painter_order_is_farthest_first(keys: Seq<u32>, order: Seq<usize>)
    requires
        is_painter_order(keys, order),
    ensures
        order.len() == keys.len(),
        forall|k: int| 0 <= k < order.len() ==> #[trigger] order[k] < keys.len(),
        forall|x: usize| x < keys.len() ==> #[trigger] order.contains(x),
        forall|k: int, l: int|
            #![trigger order[k], order[l]]
            0 <= k < l < order.len() ==> order[k] != order[l] && keys[order[k] as int] >= keys[order[l] as int]
                && (keys[order[k] as int] == keys[order[l] as int] ==> order[k] < order[l]),
{
    assert forall|x: usize| x < keys.len() implies #[trigger] order.contains(x) by {
        lemma_permutation_covers(order, keys.len() as int, x as int);
        let k = choose|k: int| 0 <= k < keys.len() && order[k] == x;
        assert(order[k] == x);
    }
    assert forall|k: int, l: int|
        #![trigger order[k], order[l]]
        0 <= k < l < order.len() implies order[k] != order[l] && keys[order[k] as int] >= keys[order[l] as int]
            && (keys[order[k] as int] == keys[order[l] as int] ==> order[k] < order[l]) by {
        assert(comes_before(keys, order[k], order[l]));
    }
}

impl<T: Copy> Mesh<T> {
    /// Sorts the faces, each with its normal, from the largest depth key to
    /// the smallest; faces of equal key keep their relative order.
    pub fn sort_faces_by_depth(&mut self, depth_keys: &Vec<u32>)
        requires
            depth_keys@.len() == old(self)@.faces.len(),
        ensures
            exists|order: Seq<usize>|
                is_painter_order(depth_keys@, order) && final(self)@ == old(self)@.permuted(order),
    {
        let order = painter_order(depth_keys);
        let ok = self.reorder_faces(&order);
        assert(ok);
        assert(is_painter_order(depth_keys@, order@));
    }
}

} // verus!
