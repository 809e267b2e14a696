//! The splice primitive on a sibling chain: detach one node and reinsert it
//! immediately before a named sibling. This is the only mutation the
//! permutation applier performs.

use vstd::prelude::*;
use crate::arena::NodeId;

verus! {

/// The index of the first occurrence of `x` in `s` (meaningful when `s`
/// contains `x`).
pub open spec fn idx_of(s: Seq<NodeId>, x: NodeId) -> int
    decreases s.len(),
{
    if s.len() == 0 {
        0
    } else if s[0] == x {
        0
    } else {
        1 + idx_of(s.drop_first(), x)
    }
}

/// When `s` contains `x`, `idx_of` is a position of `x` and the first one.
pub proof fn lemma_idx_of(s: Seq<NodeId>, x: NodeId)
    requires
        s.contains(x),
    ensures
        0 <= idx_of(s, x) < s.len(),
        s[idx_of(s, x)] == x,
        forall|m: int| 0 <= m < idx_of(s, x) ==> s[m] != x,
    decreases s.len(),
{
    if s[0] == x {
    } else {
        let t = s.drop_first();
        assert(t.contains(x)) by {
            let w = choose|w: int| 0 <= w < s.len() && s[w] == x;
            assert(t[w - 1] == x);
        }
        lemma_idx_of(t, x);
        assert forall|m: int| 0 <= m < idx_of(s, x) implies s[m] != x by {
            if m > 0 {
                assert(t[m - 1] != x);
            }
        }
    }
}

/// In a duplicate-free sequence, `idx_of` finds exactly the position at
/// which `x` is known to sit.
pub proof fn lemma_idx_of_unique(s: Seq<NodeId>, x: NodeId, p: int)
    requires
        s.no_duplicates(),
        0 <= p < s.len(),
        s[p] == x,
    ensures
        idx_of(s, x) == p,
{
    assert(s.contains(x));
    lemma_idx_of(s, x);
    let q = idx_of(s, x);
    if q != p {
        assert(s[q] == s[p]);
    }
}

/// What the splice leaves behind: `node` taken out of the chain, then put
/// back immediately before `before`.
pub open spec fn splice_before_spec(s: Seq<NodeId>, node: NodeId, before: NodeId) -> Seq<NodeId> {
    let t = s.remove(idx_of(s, node));
    t.insert(idx_of(t, before), node)
}

/// Find the position of `x` in `v`.
fn find_index(v: &Vec<NodeId>, x: NodeId) -> (r: usize)
    requires
        v@.contains(x),
    ensures
        r < v@.len(),
        v@[r as int] == x,
        forall|m: int| 0 <= m < r ==> v@[m] != x,
{
    let n = v.len();
    let mut k: usize = 0;
    loop
        invariant
            v@.contains(x),
            n == v@.len(),
            k < n,
            forall|m: int| 0 <= m < k ==> v@[m] != x,
        decreases v@.len() - k,
    {
        if v[k].idx == x.idx {
            proof {
                assert(v@[k as int] == x);
            }
            return k;
        }
        proof {
            let w = choose|w: int| 0 <= w < v@.len() && v@[w] == x;
            assert(w > k);
        }
        k += 1;
    }
}

/// Detach `node` from its place in the chain and reinsert it immediately
/// before `before`'s current position. Behaves correctly (as the identity)
/// when `node` is already immediately before `before`.
pub fn move_before(chain: &mut Vec<NodeId>, node: NodeId, before: NodeId)
    requires
        old(chain)@.no_duplicates(),
        old(chain)@.contains(node),
        old(chain)@.contains(before),
        node != before,
    ensures
        final(chain)@ == splice_before_spec(old(chain)@, node, before),
        final(chain)@.len() == old(chain)@.len(),
{
    let oi = find_index(chain, node);
    proof {
        lemma_idx_of_unique(old(chain)@, node, oi as int);
    }
    let moved = chain.remove(oi);
    proof {
        assert(chain@.contains(before)) by {
            let w = choose|w: int| 0 <= w < old(chain)@.len() && old(chain)@[w] == before;
            if w < oi {
                assert(chain@[w] == before);
            } else {
                assert(chain@[w - 1] == before);
            }
        }
        assert(chain@.no_duplicates()) by {
            assert forall|m1: int, m2: int|
                0 <= m1 < m2 < chain@.len() implies chain@[m1] != chain@[m2] by {
                let a1 = if m1 < oi { m1 } else { m1 + 1 };
                let a2 = if m2 < oi { m2 } else { m2 + 1 };
                assert(old(chain)@[a1] == chain@[m1]);
                assert(old(chain)@[a2] == chain@[m2]);
            }
        }
    }
    let bi = find_index(chain, before);
    proof {
        lemma_idx_of_unique(chain@, before, bi as int);
    }
    chain.insert(bi, moved);
}

} // verus!
