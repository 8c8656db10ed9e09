//! A verified ascending sort for id vectors: sorted result, same multiset.

use vstd::prelude::*;

verus! {

use vstd::relations::total_ordering;
use crate::model::{id_le, id_le_fn};

/// `id_le` is a total order on ids.
pub proof fn lemma_id_le_total()
    ensures
        total_ordering(id_le_fn()),
{
}

/// The position in the ascending prefix `v[0..i]` before which `x` belongs:
/// everything before it is at most `x`, and the element at it (if any)
/// exceeds `x`.
fn insert_pos(v: &Vec<u32>, x: u32, i: usize) -> (p: usize)
    requires
        i <= v@.len(),
    ensures
        p <= i,
        forall|a: int| 0 <= a < p ==> id_le(#[trigger] v@[a], x),
        p < i ==> v@[p as int] > x,
{
    let mut p: usize = 0;
    while p < i
        invariant
            0 <= p <= i <= v@.len(),
            forall|a: int| 0 <= a < p ==> id_le(#[trigger] v@[a], x),
        decreases i - p,
    {
        if v[p] > x {
            return p;
        }
        p = p + 1;
    }
    p
}

/// Sorts the vector ascending in place, preserving its multiset of elements.
pub fn sort_ids(v: &mut Vec<u32>)
    ensures
        vstd::relations::sorted_by(final (v)@, id_le_fn()),
        final (v)@.to_multiset() == old(v)@.to_multiset(),
        final (v)@.len() == old(v)@.len(),
{
    broadcast use vstd::seq_lib::group_to_multiset_ensures;

    let mut i: usize = 1;
    while i < v.len()
        invariant
            1 <= i,
            i <= v@.len() || v@.len() == 0,
            v@.len() == old(v)@.len(),
            v@.to_multiset() == old(v)@.to_multiset(),
            forall|a: int, b: int| 0 <= a < b < i && b < v@.len() ==> id_le(
                #[trigger] v@[a],
                #[trigger] v@[b],
            ),
        decreases v@.len() - i,
    {
        let x = v[i];
        let p = insert_pos(v, x, i);
        let ghost before = v@;
        let _ = v.remove(i);
        let ghost removed = v@;
        v.insert(p, x);
        proof {
            assert(removed == before.remove(i as int));
            assert(v@ == removed.insert(p as int, x));
            vstd::seq_lib::to_multiset_insert(removed, p as int, x);
            vstd::seq_lib::to_multiset_remove(before, i as int);
            vstd::seq_lib::to_multiset_contains(before, x);
            assert(before[i as int] == x);
            assert(before.contains(x));
            assert(before.to_multiset().count(x) > 0);
            assert(v@.to_multiset() =~= before.to_multiset());
            assert forall|a: int, b: int|
                0 <= a < b < i + 1 && b < v@.len() implies id_le(
                #[trigger] v@[a],
                #[trigger] v@[b],
            ) by {
                if b < p {
                    assert(v@[a] == before[a] && v@[b] == before[b]);
                } else if b == p {
                    assert(v@[b] == x);
                    assert(v@[a] == removed[a] && removed[a] == before[a]);
                } else {
                    assert(v@[b] == removed[b - 1] && removed[b - 1] == before[b - 1]);
                    if a < p {
                        assert(v@[a] == before[a]);
                        assert(id_le(before[a], x));
                        if b - 1 == a {
                            assert(p < i ==> before[p as int] > x);
                        }
                        if b - 1 > a {
                            assert(id_le(before[a], before[b - 1]));
                        }
                    } else if a == p {
                        assert(v@[a] == x);
                        assert(p < i);
                        assert(before[p as int] > x);
                        if b - 1 > p {
                            assert(id_le(before[p as int], before[b - 1]));
                        }
                    } else {
                        assert(v@[a] == removed[a - 1] && removed[a - 1] == before[a - 1]);
                        assert(id_le(before[a - 1], before[b - 1]));
                    }
                }
            }
        }
        i = i + 1;
    }
}

} // verus!
