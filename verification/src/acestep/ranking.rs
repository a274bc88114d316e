//! Ranking of numbers: positions in descending order, without exchanging equal
//! ones.

use vstd::prelude::*;

use crate::acestep::layout::{comes_first, is_packed};
use crate::single::Single;

verus! {

/// `order` lists the positions from `low` on and below `high`, each once, those
/// of larger keys first and those of equal keys in their order.
pub open spec fn ranks(keys: Seq<i64>, low: int, high: int, order: Seq<usize>) -> bool {
    &&& is_packed(keys, order)
    &&& order.len() == high - low
    &&& forall|k: int| 0 <= k < order.len() ==> low <= #[trigger] order[k] < high
    &&& forall|p: usize| low <= p < high ==> #[trigger] order.contains(p)
}

/// What is put at the end of a list is added to its multiset.
proof fn lemma_pushed<A>(list: Seq<A>, item: A)
    ensures
        list.push(item).to_multiset() == list.to_multiset().insert(item),
{
    broadcast use vstd::seq_lib::group_to_multiset_ensures;

}

/// One more entry of a list is one more in its multiset.
proof fn lemma_taken<A>(a: Seq<A>, i: int)
    requires
        0 <= i < a.len(),
    ensures
        a.take(i + 1).to_multiset() == a.take(i).to_multiset().insert(a[i]),
{
    broadcast use vstd::seq_lib::group_to_multiset_ensures;

    assert(a.take(i + 1) =~= a.take(i).push(a[i]));
}

/// Merges the ranks of two adjacent ranges.
fn merge_ranks(
    keys: &Vec<i64>,
    left: &Vec<usize>,
    right: &Vec<usize>,
    low: usize,
    mid: usize,
    high: usize,
) -> (out: Vec<usize>)
    requires
        low <= mid <= high <= keys@.len(),
        ranks(keys@, low as int, mid as int, left@),
        ranks(keys@, mid as int, high as int, right@),
    ensures
        ranks(keys@, low as int, high as int, out@),
{
    broadcast use vstd::seq_lib::group_to_multiset_ensures;

    let mut out: Vec<usize> = Vec::new();
    let mut i: usize = 0;
    let mut j: usize = 0;
    assert(left@.take(0) =~= Seq::empty());
    assert(right@.take(0) =~= Seq::empty());
    assert(out@.to_multiset() =~= left@.take(0).to_multiset().add(right@.take(0).to_multiset()));
    while i < left.len() || j < right.len()
        invariant
            low <= mid <= high <= keys@.len(),
            ranks(keys@, low as int, mid as int, left@),
            ranks(keys@, mid as int, high as int, right@),
            i <= left@.len(),
            j <= right@.len(),
            out@.len() == i + j,
            is_packed(keys@, out@),
            forall|k: int| 0 <= k < out@.len() ==> low <= #[trigger] out@[k] < high,
            forall|k: int, m: int|
                0 <= k < out@.len() && i <= m < left@.len() ==> comes_first(
                    keys@,
                    #[trigger] out@[k],
                    #[trigger] left@[m],
                ),
            forall|k: int, m: int|
                0 <= k < out@.len() && j <= m < right@.len() ==> comes_first(
                    keys@,
                    #[trigger] out@[k],
                    #[trigger] right@[m],
                ),
            out@.to_multiset() == left@.take(i as int).to_multiset().add(
                right@.take(j as int).to_multiset(),
            ),
        decreases left@.len() - i + right@.len() - j,
    {
        let ghost before = out@;
        let from_right: bool = if i >= left.len() {
            true
        } else if j >= right.len() {
            false
        } else {
            keys[right[j]] > keys[left[i]]
        };
        if from_right {
            let next: usize = right[j];
            proof {
                lemma_taken(right@, j as int);
                assert forall|m: int| i <= m < left@.len() implies comes_first(
                    keys@,
                    next,
                    #[trigger] left@[m],
                ) by {
                    if m > i {
                        assert(comes_first(keys@, left@[i as int], left@[m]));
                    }
                }
                assert forall|m: int| j + 1 <= m < right@.len() implies comes_first(
                    keys@,
                    next,
                    #[trigger] right@[m],
                ) by {
                    assert(comes_first(keys@, right@[j as int], right@[m]));
                }
            }
            out.push(next);
            proof {
                lemma_pushed(before, next);
                assert(out@.to_multiset() =~= left@.take(i as int).to_multiset().add(
                    right@.take(j + 1).to_multiset(),
                ));
            }
            j += 1;
        } else {
            let next: usize = left[i];
            proof {
                lemma_taken(left@, i as int);
                assert forall|m: int| i + 1 <= m < left@.len() implies comes_first(
                    keys@,
                    next,
                    #[trigger] left@[m],
                ) by {
                    assert(comes_first(keys@, left@[i as int], left@[m]));
                }
                assert forall|m: int| j <= m < right@.len() implies comes_first(
                    keys@,
                    next,
                    #[trigger] right@[m],
                ) by {
                    assert(next < mid);
                    assert(right@[m] >= mid);
                    if m > j {
                        assert(comes_first(keys@, right@[j as int], right@[m]));
                    }
                }
            }
            out.push(next);
            proof {
                lemma_pushed(before, next);
                assert(out@.to_multiset() =~= left@.take(i + 1).to_multiset().add(
                    right@.take(j as int).to_multiset(),
                ));
            }
            i += 1;
        }
    }
    proof {
        assert(left@.take(i as int) =~= left@);
        assert(right@.take(j as int) =~= right@);
        assert forall|p: usize| low <= p < high implies #[trigger] out@.contains(p) by {
            if p < mid {
                assert(left@.contains(p));
            } else {
                assert(right@.contains(p));
            }
            assert(out@.to_multiset().count(p) > 0);
        }
    }
    out
}

/// Ranks the positions from `low` on and below `high`.
fn rank_range(keys: &Vec<i64>, low: usize, high: usize) -> (order: Vec<usize>)
    requires
        low <= high <= keys@.len(),
    ensures
        ranks(keys@, low as int, high as int, order@),
    decreases high - low,
{
    if high - low <= 1 {
        let mut order: Vec<usize> = Vec::new();
        if high - low == 1 {
            order.push(low);
            assert(order@[0] == low);
        }
        return order;
    }
    let mid: usize = low + (high - low) / 2;
    let left = rank_range(keys, low, mid);
    let right = rank_range(keys, mid, high);
    merge_ranks(keys, &left, &right, low, mid, high)
}

/// Ranks all positions.
pub fn rank_descending(keys: &Vec<i64>) -> (order: Vec<usize>)
    ensures
        ranks(keys@, 0, keys@.len() as int, order@),
{
    rank_range(keys, 0, keys.len())
}

/// The place of a number in the total order of numbers: by value, with negative
/// zero below zero, and what is no number beyond the infinities on the side of
/// its sign.
pub open spec fn order_key(value: Single) -> i64 {
    if value.negative() {
        (-1 - value.magnitude()) as i64
    } else {
        value.magnitude() as i64
    }
}

/// The place of a number in the total order of numbers.
pub fn total_order_key(value: Single) -> (key: i64)
    ensures
        key == order_key(value),
{
    if value.bits >= 0x8000_0000 {
        -1 - (value.bits - 0x8000_0000) as i64
    } else {
        value.bits as i64
    }
}

/// Different numbers have different places.
pub proof fn lemma_order_key_injective(a: Single, b: Single)
    requires
        order_key(a) == order_key(b),
    ensures
        a == b,
{
}

} // verus!
