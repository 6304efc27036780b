//! Roving-tabindex stepping shared by composite widgets (tab lists, trees): arrow keys move
//! focus between items, clamped at both ends (no wrap-around).

use vstd::prelude::*;
use crate::node::NodeId;

verus! {

/// Index reached from `seed` by `delta`, clamped to `[0, len - 1]`.
pub open spec fn roving_target(len: int, seed: int, delta: int) -> int {
    let t = seed + delta;
    if t < 0 {
        0
    } else if t > len - 1 {
        len - 1
    } else {
        t
    }
}

/// Step from item `seed` by `delta` items, clamped to the first and last item (an edge
/// step returns the edge item itself). `None` when there are no items. The seed is taken as
/// a signed 64-bit number (`seed as i64`: a seed past `i64::MAX` turns negative and so lands
/// on the first item); the sum with `delta` must not overflow.
pub fn roving_step(items: &[NodeId], seed: usize, delta: i64) -> (r: Option<NodeId>)
    requires
        i64::MIN <= (seed as i64) + delta <= i64::MAX,
    ensures
        items@.len() == 0 ==> r is None,
        items@.len() > 0 ==> r == Some(
            items@[roving_target(items@.len() as int, (seed as i64) as int, delta as int)],
        ),
{
    let n = items.len();
    if n == 0 {
        return None;
    }
    let t: i64 = seed as i64 + delta;
    let idx: usize = if t < 0 {
        0
    } else if t as u64 >= n as u64 {
        n - 1
    } else {
        t as usize
    };
    Some(items[idx])
}

} // verus!
