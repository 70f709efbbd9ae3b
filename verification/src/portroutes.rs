//! Predecessor chains of the per-port shortest-path tables.
//!
//! A port's table gives, for every tile, the next tile toward the port's
//! entry tiles; an entry tile (a search source) has no predecessor,
//! marked `NO_PRED`. A voyage's route is the chain from its start tile.

use vstd::prelude::*;

verus! {

/// Predecessor of a source tile.
pub const NO_PRED: u32 = 0xffff_ffff;

/// The `k`-th tile of the chain from `start`.
pub open spec fn chain_at(pred: Seq<u32>, start: int, k: nat) -> int
    decreases k,
{
    if k == 0 {
        start
    } else {
        pred[chain_at(pred, start, (k - 1) as nat)] as int
    }
}

/// The chain from `start` has `len` tiles: each lies in the table, each
/// but the last has a predecessor, and the last is a source.
pub open spec fn chain_ends(pred: Seq<u32>, start: int, len: nat) -> bool {
    &&& len >= 1
    &&& forall|k: nat| k < len ==> 0 <= #[trigger] chain_at(pred, start, k) < pred.len()
    &&& forall|k: nat| k + 1 < len ==> pred[#[trigger] chain_at(pred, start, k)] != NO_PRED
    &&& pred[chain_at(pred, start, (len - 1) as nat)] == NO_PRED
}

/// Follow the predecessor chain from `start` to a source tile. Returns the
/// tiles from `start` to the source, or `None` if the chain leaves the
/// table or does not reach a source within as many steps as there are
/// tiles (a cycle).
pub fn walk_predecessors(pred: &[u32], start: u32) -> (r: Option<Vec<u32>>)
    ensures
        r matches Some(p) ==> chain_ends(pred@, start as int, p@.len())
            && forall|k: int| 0 <= k < p@.len() ==> p@[k] as int == #[trigger] chain_at(pred@, start as int, k as nat),
        r is None ==> forall|len: nat| len <= pred@.len() ==> !#[trigger] chain_ends(pred@, start as int, len),
{
    let n = pred.len();
    let mut path: Vec<u32> = Vec::new();
    let mut cur: u32 = start;
    let mut steps: usize = 0;
    while steps < n
        invariant
            n == pred@.len(),
            steps <= n,
            path@.len() == steps,
            cur as int == chain_at(pred@, start as int, steps as nat),
            forall|k: int| 0 <= k < steps ==> path@[k] as int == #[trigger] chain_at(pred@, start as int, k as nat),
            forall|k: nat| k < steps ==> 0 <= #[trigger] chain_at(pred@, start as int, k) < n,
            forall|k: nat| k < steps ==> pred@[#[trigger] chain_at(pred@, start as int, k)] != NO_PRED,
        decreases n - steps,
    {
        if cur as usize >= n {
            proof {
                assert forall|len: nat| len <= pred@.len() implies !#[trigger] chain_ends(pred@, start as int, len) by {
                    if len > steps {
                        assert(!(0 <= chain_at(pred@, start as int, steps as nat) < n));
                    } else if len >= 1 {
                        assert(pred@[chain_at(pred@, start as int, (len - 1) as nat)] != NO_PRED);
                    }
                }
            }
            return None;
        }
        path.push(cur);
        let p = pred[cur as usize];
        if p == NO_PRED {
            proof {
                assert(chain_ends(pred@, start as int, (steps + 1) as nat));
            }
            return Some(path);
        }
        cur = p;
        steps = steps + 1;
    }
    proof {
        assert forall|len: nat| len <= pred@.len() implies !#[trigger] chain_ends(pred@, start as int, len) by {
            if len >= 1 {
                assert(pred@[chain_at(pred@, start as int, (len - 1) as nat)] != NO_PRED);
            }
        }
    }
    None
}

} // verus!
