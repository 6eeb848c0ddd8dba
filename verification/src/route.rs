//! Reading a shortest lane path back out of the predecessor map a
//! shortest-path search leaves behind.

use std::collections::HashMap;
use vstd::prelude::*;
use crate::lanes::LaneId;

verus! {

broadcast use vstd::std_specs::hash::group_hash_axioms;

/// The lane reached from `x` by following `prev` back `k` times.
pub open spec fn walk(prev: Map<usize, usize>, x: usize, k: nat) -> usize
    decreases k,
{
    if k == 0 {
        x
    } else {
        prev[walk(prev, x, (k - 1) as nat)]
    }
}

/// Following `prev` back from `goal` arrives at `start` after `n` steps,
/// every lane on the way having a recorded predecessor.
pub open spec fn reaches(prev: Map<usize, usize>, goal: usize, start: usize, n: nat) -> bool {
    walk(prev, goal, n) == start && forall|i: nat| i < n ==> prev.dom().contains(#[trigger] walk(prev, goal, i))
}

/// `path` runs from `start` to `goal`, each lane the recorded predecessor of
/// the next, and `start` appears only at its head.
pub open spec fn is_path_back(prev: Map<usize, usize>, start: LaneId, goal: LaneId, path: Seq<LaneId>) -> bool {
    &&& path.len() >= 1
    &&& path[0] == start
    &&& path.last() == goal
    &&& forall|i: int|
        0 <= i < path.len() - 1 ==> prev.dom().contains(#[trigger] path[i + 1].0) && prev[path[i + 1].0] == path[i].0
    &&& forall|i: int| 0 < i < path.len() ==> #[trigger] path[i] != start
}

/// The lane path `start -> goal` recorded in `prev` (each lane's predecessor
/// on its best-known route): walk back from `goal` to `start`, then reverse.
/// The path is in drive order and stops at the first time the walk meets
/// `start`.
pub fn reconstruct(prev: &HashMap<usize, usize>, start: LaneId, goal: LaneId) -> (path: Vec<LaneId>)
    requires
        exists|n: nat| reaches(prev@, goal.0, start.0, n),
    ensures
        is_path_back(prev@, start, goal, path@),
{
    let ghost n = choose|n: nat| reaches(prev@, goal.0, start.0, n);
    let mut back: Vec<LaneId> = Vec::new();
    back.push(goal);
    let mut cur: usize = goal.0;
    let ghost mut k: nat = 0;
    while cur != start.0
        invariant
            reaches(prev@, goal.0, start.0, n),
            k <= n,
            cur == walk(prev@, goal.0, k),
            back@.len() == k + 1,
            forall|i: int| 0 <= i <= k ==> #[trigger] back@[i] == LaneId(walk(prev@, goal.0, i as nat)),
            forall|i: nat| i < k ==> #[trigger] walk(prev@, goal.0, i) != start.0,
        decreases n - k,
    {
        assert(k != n);
        assert(prev@.dom().contains(walk(prev@, goal.0, k)));
        let next = match prev.get(&cur) {
            Some(p) => *p,
            None => {
                assert(false);
                cur
            },
        };
        proof {
            assert(walk(prev@, goal.0, k + 1) == prev@[walk(prev@, goal.0, k)]);
            k = k + 1;
        }
        cur = next;
        back.push(LaneId(cur));
    }
    let len = back.len();
    let mut path: Vec<LaneId> = Vec::new();
    let mut j: usize = 0;
    while j < len
        invariant
            len == back@.len(),
            j <= len,
            path@.len() == j,
            forall|i: int| 0 <= i < j ==> #[trigger] path@[i] == back@[len - 1 - i],
        decreases len - j,
    {
        path.push(back[len - 1 - j]);
        j = j + 1;
    }
    proof {
        assert forall|i: int| 0 <= i < path@.len() - 1 implies prev@.dom().contains(#[trigger] path@[i + 1].0)
            && prev@[path@[i + 1].0] == path@[i].0 by {
            let w = (k - 1 - i) as nat;
            assert(path@[i + 1] == back@[w as int]);
            assert(path@[i] == back@[(w + 1) as int]);
            assert(walk(prev@, goal.0, w + 1) == prev@[walk(prev@, goal.0, w)]);
            assert(w < n);
        }
        assert forall|i: int| 0 < i < path@.len() implies #[trigger] path@[i] != start by {
            assert(path@[i] == back@[k - i]);
            assert(walk(prev@, goal.0, (k - i) as nat) != start.0);
        }
    }
    path
}

} // verus!
