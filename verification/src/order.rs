//! Stable ordering by a numeric key, largest first.

use vstd::prelude::*;

verus! {

/// Position `p` comes before position `q` in a stable largest-first order of
/// `keys`: a larger key first, equal keys in index order.
pub open spec fn before_desc(keys: Seq<u64>, i: usize, j: usize) -> bool {
    keys[i as int] > keys[j as int] || (keys[i as int] == keys[j as int] && i < j)
}

/// `order` lists every index of `keys` once, in stable largest-first order.
pub open spec fn is_stable_desc_order(keys: Seq<u64>, order: Seq<usize>) -> bool {
    &&& order.len() == keys.len()
    &&& order.no_duplicates()
    &&& forall|p: int| 0 <= p < order.len() ==> #[trigger] order[p] < keys.len()
    &&& forall|p: int, q: int| 0 <= p < q < order.len() ==> before_desc(keys, #[trigger] order[p], #[trigger] order[q])
}

/// The indices of `keys` sorted by key, largest first; equal keys keep their
/// index order (a stable sort).
pub fn stable_order_desc(keys: &Vec<u64>) -> (order: Vec<usize>)
    ensures
        is_stable_desc_order(keys@, order@),
{
    let mut order: Vec<usize> = Vec::new();
    let mut i: usize = 0;
    while i < keys.len()
        invariant
            i <= keys@.len(),
            order@.len() == i,
            order@.no_duplicates(),
            forall|p: int| 0 <= p < order@.len() ==> #[trigger] order@[p] < i,
            forall|p: int, q: int| 0 <= p < q < order@.len() ==> before_desc(keys@, #[trigger] order@[p], #[trigger] order@[q]),
        decreases keys@.len() - i,
    {
        let k = keys[i];
        let mut pos: usize = 0;
        while pos < order.len() && keys[order[pos]] >= k
            invariant
                pos <= order@.len(),
                order@.len() == i,
                i < keys@.len(),
                k == keys@[i as int],
                forall|p: int| 0 <= p < order@.len() ==> #[trigger] order@[p] < i,
                forall|p: int| 0 <= p < pos ==> keys@[#[trigger] order@[p] as int] >= k,
            decreases order@.len() - pos,
        {
            pos = pos + 1;
        }
        let ghost old_order = order@;
        proof {
            // Everything from `pos` on has a smaller key than `k`.
            assert forall|p: int| pos <= p < old_order.len() implies keys@[#[trigger] old_order[p] as int] < k by {
                if p > pos {
                    assert(before_desc(keys@, old_order[pos as int], old_order[p]));
                }
            }
        }
        order.insert(pos, i);
        proof {
            assert(order@ == old_order.insert(pos as int, i));
            assert forall|p: int, q: int| 0 <= p < q < order@.len() implies before_desc(keys@, #[trigger] order@[p], #[trigger] order@[q]) by {
                if q < pos {
                } else if q == pos {
                    assert(order@[p] == old_order[p]);
                } else if p < pos {
                    assert(order@[q] == old_order[q - 1]);
                } else if p == pos {
                    assert(order@[q] == old_order[q - 1]);
                } else {
                    assert(order@[p] == old_order[p - 1]);
                    assert(order@[q] == old_order[q - 1]);
                }
            }
            assert forall|p: int, q: int| 0 <= p < order@.len() && 0 <= q < order@.len() && p != q implies order@[p] != order@[q] by {
                if p != pos && q != pos {
                    let pp = if p < pos { p } else { p - 1 };
                    let qq = if q < pos { q } else { q - 1 };
                    assert(order@[p] == old_order[pp]);
                    assert(order@[q] == old_order[qq]);
                } else if p == pos {
                    let qq = if q < pos { q } else { q - 1 };
                    assert(order@[q] == old_order[qq]);
                } else {
                    let pp = if p < pos { p } else { p - 1 };
                    assert(order@[p] == old_order[pp]);
                }
            }
        }
        i = i + 1;
    }
    order
}

} // verus!
