//! The permutation applier: given the original child order and a target order
//! over the same identifiers, rewrite the sibling chain so that it reads as
//! the target, using only the splice-before primitive.
//!
//! The pass walks the target left to right with a one-slot carry. At each
//! position the identifier at the frontier of the chain is either the wanted
//! one (it is confirmed and the pass advances) or it is displaced by splicing
//! the wanted identifier in front of it; the displaced identifier stays at
//! the frontier, "in flight", and is retried against the next position.
//! When nothing is in flight, the frontier identifier is drawn by scanning
//! the unconsumed suffix of the original order, skipping identifiers that
//! were already anchored at an earlier target position — a skipped node must
//! not be spliced again, or its position would be corrupted.

use vstd::prelude::*;
use crate::arena::NodeId;
use crate::splice::{idx_of, lemma_idx_of_unique, move_before, splice_before_spec};

verus! {

/// `x` already occupies one of the target positions strictly before `i`.
pub open spec fn placed(target: Seq<NodeId>, i: int, x: NodeId) -> bool {
    exists|m: int| 0 <= m < i && target[m] == x
}

/// Exec form of `placed`: scan the first `i` target positions for `x`.
fn is_placed(target: &Vec<NodeId>, i: usize, x: NodeId) -> (r: bool)
    requires
        i <= target@.len(),
    ensures
        r == placed(target@, i as int, x),
{
    let mut m: usize = 0;
    while m < i
        invariant
            i <= target@.len(),
            m <= i,
            forall|q: int| 0 <= q < m ==> target@[q] != x,
        decreases i - m,
    {
        if target[m] == x {
            return true;
        }
        m += 1;
    }
    false
}

/// The ghost bookkeeping of the pass: the chain is the already-realized
/// prefix of the target followed by the not-yet-placed identifiers, which
/// still stand in their original relative order. `src[k]` is the position in
/// the original order of the `k`-th identifier of that suffix.
pub open spec fn suffix_ok(
    src: Seq<int>,
    orig: Seq<NodeId>,
    target: Seq<NodeId>,
    chain: Seq<NodeId>,
    i: int,
) -> bool {
    &&& src.len() == chain.len() - i
    &&& forall|k: int| 0 <= k < src.len() ==> 0 <= #[trigger] src[k] < orig.len()
    &&& forall|k1: int, k2: int|
        0 <= k1 < k2 < src.len() ==> #[trigger] src[k1] < #[trigger] src[k2]
    &&& forall|k: int| 0 <= k < src.len() ==> chain[i + k] == orig[#[trigger] src[k]]
    &&& forall|k: int| 0 <= k < src.len() ==> !placed(target, i, orig[#[trigger] src[k]])
    &&& forall|p: int|
        0 <= p < orig.len() && !placed(target, i, #[trigger] orig[p]) ==> src.contains(p)
}

/// Under `suffix_ok` with a realized prefix, the chain has no duplicates.
proof fn lemma_chain_distinct(
    src: Seq<int>,
    orig: Seq<NodeId>,
    target: Seq<NodeId>,
    chain: Seq<NodeId>,
    i: int,
)
    requires
        0 <= i <= chain.len(),
        orig.no_duplicates(),
        target.no_duplicates(),
        forall|k: int| 0 <= k < i ==> chain[k] == target[k],
        i <= target.len(),
        suffix_ok(src, orig, target, chain, i),
    ensures
        chain.no_duplicates(),
{
    assert forall|m1: int, m2: int|
        0 <= m1 < m2 < chain.len() implies chain[m1] != chain[m2] by {
        if m2 < i {
        } else if m1 >= i {
            assert(src[m1 - i] < src[m2 - i]);
        } else {
            // a placed identifier cannot still sit in the suffix
            if chain[m1] == chain[m2] {
                assert(placed(target, i, orig[src[m2 - i]]));
            }
        }
    }
}

/// Realize `target` on the sibling chain. `orig` is the snapshot of the
/// chain's state at entry; `target` is a permutation of the same
/// identifiers. Every mutation of the chain goes through `move_before`.
#[verifier::rlimit(100)]
pub fn apply_order(chain: &mut Vec<NodeId>, orig: &Vec<NodeId>, target: &Vec<NodeId>)
    requires
        old(chain)@ == orig@,
        orig@.no_duplicates(),
        target@.no_duplicates(),
        orig@.len() == target@.len(),
        forall|k: int| 0 <= k < target@.len() ==> orig@.contains(#[trigger] target@[k]),
    ensures
        final(chain)@ == target@,
{
    let n = target.len();
    let ghost orig_s = orig@;
    let ghost target_s = target@;
    let mut i: usize = 0;
    let mut j: usize = 0;
    let mut cache: Option<NodeId> = None;
    let ghost mut src: Seq<int> = Seq::new(n as nat, |k: int| k);
    proof {
        assert forall|p: int|
            0 <= p < orig_s.len() && !placed(target_s, 0, #[trigger] orig_s[p]) implies src.contains(
            p,
        ) by {
            assert(src[p] == p);
        }
    }
    while i < n
        invariant
            orig@ == orig_s,
            target@ == target_s,
            orig_s.no_duplicates(),
            target_s.no_duplicates(),
            orig_s.len() == n,
            target_s.len() == n,
            chain@.len() == n,
            forall|k: int| 0 <= k < n ==> orig_s.contains(#[trigger] target_s[k]),
            i <= n,
            j <= n,
            forall|k: int| 0 <= k < i ==> chain@[k] == target_s[k],
            suffix_ok(src, orig_s, target_s, chain@, i as int),
            match cache {
                Some(c) => src.len() > 0 && chain@[i as int] == c && forall|p: int|
                    0 <= p < j ==> placed(target_s, i as int, #[trigger] orig_s[p]) || orig_s[p]
                        == c,
                None => forall|p: int|
                    0 <= p < j ==> placed(target_s, i as int, #[trigger] orig_s[p]),
            },
        decreases n - i,
    {
        let s = target[i];
        // take the identifier now at the frontier of the chain: the one in
        // flight if the carry holds one, else the next original identifier
        // that is not already anchored at an earlier target position
        let frontier: NodeId = match cache {
            Some(c) => c,
            None => {
                proof {
                    // the frontier identifier is still ahead of the cursor
                    assert(src.len() > 0);
                    assert(!placed(target_s, i as int, orig_s[src[0]]));
                    if j > src[0] {
                        assert(placed(target_s, i as int, orig_s[src[0]]));
                    }
                }
                while is_placed(target, i, orig[j])
                    invariant
                        orig@ == orig_s,
                        target@ == target_s,
                        i < n,
                        i <= target_s.len(),
                        orig_s.len() == n,
                        src.len() > 0,
                        j <= src[0] < n,
                        !placed(target_s, i as int, orig_s[src[0]]),
                        forall|p: int|
                            0 <= p < j ==> placed(target_s, i as int, #[trigger] orig_s[p]),
                    decreases src[0] - j,
                {
                    proof {
                        if j == src[0] {
                            assert(placed(target_s, i as int, orig_s[src[0]]));
                        }
                    }
                    j += 1;
                }
                let u = orig[j];
                proof {
                    // the scan stopped exactly at the first not-yet-placed
                    // identifier, which is the one at the chain's frontier
                    assert(src.contains(j as int));
                    let kj = choose|kj: int| 0 <= kj < src.len() && src[kj] == j;
                    if kj > 0 {
                        assert(src[0] < src[kj]);
                    }
                    assert(j == src[0]);
                    assert(chain@[i as int] == u);
                }
                j += 1;
                u
            },
        };
        proof {
            assert(chain@[i as int] == frontier);
            assert(forall|p: int|
                0 <= p < j ==> placed(target_s, i as int, #[trigger] orig_s[p]) || orig_s[p]
                    == frontier);
        }
        if frontier == s {
            // the wanted identifier is already at the frontier: confirm it
            cache = None;
            proof {
                let src0 = src;
                src = src.subrange(1, src.len() as int);
                assert forall|p: int|
                    0 <= p < orig_s.len() && !placed(
                        target_s,
                        i + 1,
                        #[trigger] orig_s[p],
                    ) implies src.contains(p) by {
                    assert(!placed(target_s, i as int, orig_s[p]));
                    assert(src0.contains(p));
                    let kp = choose|kp: int| 0 <= kp < src0.len() && src0[kp] == p;
                    if kp == 0 {
                        assert(orig_s[src0[0]] == s);
                        assert(placed(target_s, i + 1, orig_s[p])) by {
                            assert(target_s[i as int] == orig_s[p]);
                        }
                    } else {
                        assert(src[kp - 1] == p);
                    }
                }
                assert forall|k: int|
                    0 <= k < src.len() implies !placed(target_s, i + 1, orig_s[
                    #[trigger] src[k]]) by {
                    assert(src[k] == src0[k + 1]);
                    assert(!placed(target_s, i as int, orig_s[src0[k + 1]]));
                    assert(src0[0] < src0[k + 1]);
                    assert(orig_s[src0[k + 1]] != orig_s[src0[0]]);
                    if placed(target_s, i + 1, orig_s[src0[k + 1]]) {
                        let m = choose|m: int|
                            0 <= m < i + 1 && target_s[m] == orig_s[src0[k + 1]];
                        assert(m == i);
                        assert(orig_s[src0[0]] == chain@[i as int]);
                    }
                }
            }
        } else {
            // splice the wanted identifier in just before the frontier; the
            // displaced frontier identifier stays in flight
            proof {
                lemma_chain_distinct(src, orig_s, target_s, chain@, i as int);
                // locate the wanted identifier in the suffix
                assert(orig_s.contains(s));
                let ps = choose|ps: int| 0 <= ps < orig_s.len() && orig_s[ps] == s;
                assert(!placed(target_s, i as int, s)) by {
                    if placed(target_s, i as int, s) {
                        let m = choose|m: int| 0 <= m < i && target_s[m] == s;
                        assert(target_s[m] == target_s[i as int]);
                    }
                }
                assert(src.contains(ps));
                assert(chain@.contains(s)) by {
                    let ks = choose|ks: int| 0 <= ks < src.len() && src[ks] == ps;
                    assert(chain@[i + ks] == s);
                }
                assert(chain@.contains(frontier)) by {
                    assert(chain@[i as int] == frontier);
                }
            }
            let ghost chain0 = chain@;
            move_before(chain, s, frontier);
            proof {
                let ps = choose|ps: int| 0 <= ps < orig_s.len() && orig_s[ps] == s;
                let ks = choose|ks: int| 0 <= ks < src.len() && src[ks] == ps;
                assert(chain0[i + ks] == s);
                assert(ks != 0);
                lemma_chain_distinct(src, orig_s, target_s, chain0, i as int);
                lemma_idx_of_unique(chain0, s, i + ks);
                let t = chain0.remove(i + ks);
                assert(t.no_duplicates()) by {
                    assert forall|m1: int, m2: int|
                        0 <= m1 < m2 < t.len() implies t[m1] != t[m2] by {
                        let a1 = if m1 < i + ks { m1 } else { m1 + 1 };
                        let a2 = if m2 < i + ks { m2 } else { m2 + 1 };
                        assert(chain0[a1] == t[m1]);
                        assert(chain0[a2] == t[m2]);
                    }
                }
                assert(t[i as int] == frontier);
                lemma_idx_of_unique(t, frontier, i as int);
                assert(chain@ == t.insert(i as int, s));
                // re-establish the bookkeeping with the wanted identifier
                // moved from the suffix into the realized prefix
                let src0 = src;
                src = src.remove(ks);
                assert(chain@[i as int] == s);
                assert forall|k: int| 0 <= k < i + 1 implies chain@[k] == target_s[k] by {
                    if k < i {
                        assert(chain@[k] == t[k]);
                        assert(t[k] == chain0[k]);
                    }
                }
                assert(chain@[i + 1] == t[i as int]);
                assert forall|k: int|
                    0 <= k < src.len() implies chain@[i + 1 + k] == orig_s[#[trigger] src[k]] by {
                    if k < ks {
                        assert(src[k] == src0[k]);
                        assert(chain@[i + 1 + k] == t[i + k]);
                        if k > 0 {
                            assert(t[i + k] == chain0[i + k]);
                        }
                    } else {
                        assert(src[k] == src0[k + 1]);
                        assert(chain@[i + 1 + k] == t[i + k]);
                        assert(t[i + k] == chain0[i + k + 1]);
                    }
                }
                assert forall|k1: int, k2: int|
                    0 <= k1 < k2 < src.len() implies #[trigger] src[k1] < #[trigger] src[k2] by {
                    let a1 = if k1 < ks { k1 } else { k1 + 1 };
                    let a2 = if k2 < ks { k2 } else { k2 + 1 };
                    assert(src[k1] == src0[a1]);
                    assert(src[k2] == src0[a2]);
                }
                assert forall|k: int|
                    0 <= k < src.len() implies !placed(target_s, i + 1, orig_s[
                    #[trigger] src[k]]) by {
                    let a = if k < ks { k } else { k + 1 };
                    assert(src[k] == src0[a]);
                    assert(!placed(target_s, i as int, orig_s[src0[a]]));
                    if placed(target_s, i + 1, orig_s[src0[a]]) {
                        let m = choose|m: int| 0 <= m < i + 1 && target_s[m] == orig_s[src0[a]];
                        assert(m == i);
                        assert(orig_s[src0[a]] == s);
                        assert(orig_s[src0[a]] == orig_s[ps]);
                        assert(src0[a] == ps);
                        assert(src0[a] == src0[ks]);
                    }
                }
                assert forall|p: int|
                    0 <= p < orig_s.len() && !placed(
                        target_s,
                        i + 1,
                        #[trigger] orig_s[p],
                    ) implies src.contains(p) by {
                    assert(!placed(target_s, i as int, orig_s[p]));
                    assert(src0.contains(p));
                    let kp = choose|kp: int| 0 <= kp < src0.len() && src0[kp] == p;
                    if kp == ks {
                        assert(orig_s[p] == s);
                        assert(placed(target_s, i + 1, orig_s[p])) by {
                            assert(target_s[i as int] == orig_s[p]);
                        }
                    } else if kp < ks {
                        assert(src[kp] == p);
                    } else {
                        assert(src[kp - 1] == p);
                    }
                }
            }
            cache = Some(frontier);
        }
        i += 1;
    }
    proof {
        assert(chain@ =~= target_s);
    }
}

} // verus!
