//! Laws of the reordering engine that relate several operations: what one
//! sort leaves behind determines what the next sort can do.

use vstd::prelude::*;
use crate::arena::NodeId;
use crate::sort::{id_sorted, stable_val_sorted};
use crate::splice::{idx_of, lemma_idx_of_unique};

verus! {

/// Strict lexicographic order on (primary, tie-breaker) rank pairs.
spec fn lex_lt(p: (int, int), q: (int, int)) -> bool {
    p.0 < q.0 || (p.0 == q.0 && p.1 < q.1)
}

/// A sequence strictly sorted by a rank is determined by its element set:
/// two such sequences over the same identifiers are equal.
proof fn lemma_rank_sorted_unique(a: Seq<NodeId>, b: Seq<NodeId>, rank: spec_fn(NodeId) -> (int, int))
    requires
        forall|k1: int, k2: int|
            0 <= k1 < k2 < a.len() ==> lex_lt(rank(#[trigger] a[k1]), rank(#[trigger] a[k2])),
        forall|k1: int, k2: int|
            0 <= k1 < k2 < b.len() ==> lex_lt(rank(#[trigger] b[k1]), rank(#[trigger] b[k2])),
        a.len() == b.len(),
        forall|x: NodeId| a.contains(x) <==> b.contains(x),
    ensures
        a == b,
    decreases a.len(),
{
    if a.len() == 0 {
        assert(a =~= b);
    } else {
        assert(b.contains(a[0]));
        assert(a.contains(b[0]));
        let ma = choose|ma: int| 0 <= ma < a.len() && a[ma] == b[0];
        let mb = choose|mb: int| 0 <= mb < b.len() && b[mb] == a[0];
        assert(a[0] == b[0]) by {
            if ma > 0 {
                assert(lex_lt(rank(a[0]), rank(a[ma])));
            }
            if mb > 0 {
                assert(lex_lt(rank(b[0]), rank(b[mb])));
            }
        }
        let a1 = a.drop_first();
        let b1 = b.drop_first();
        assert forall|x: NodeId| a1.contains(x) implies b1.contains(x) by {
            let m = choose|m: int| 0 <= m < a1.len() && a1[m] == x;
            assert(a[m + 1] == x);
            assert(lex_lt(rank(a[0]), rank(x)));
            assert(b.contains(x));
            let mx = choose|mx: int| 0 <= mx < b.len() && b[mx] == x;
            assert(mx != 0);
            assert(b1[mx - 1] == x);
        }
        assert forall|x: NodeId| b1.contains(x) implies a1.contains(x) by {
            let m = choose|m: int| 0 <= m < b1.len() && b1[m] == x;
            assert(b[m + 1] == x);
            assert(lex_lt(rank(b[0]), rank(x)));
            assert(a.contains(x));
            let mx = choose|mx: int| 0 <= mx < a.len() && a[mx] == x;
            assert(mx != 0);
            assert(a1[mx - 1] == x);
        }
        assert forall|k1: int, k2: int|
            0 <= k1 < k2 < a1.len() implies lex_lt(rank(#[trigger] a1[k1]), rank(
            #[trigger] a1[k2])) by {
            assert(a1[k1] == a[k1 + 1]);
            assert(a1[k2] == a[k2 + 1]);
        }
        assert forall|k1: int, k2: int|
            0 <= k1 < k2 < b1.len() implies lex_lt(rank(#[trigger] b1[k1]), rank(
            #[trigger] b1[k2])) by {
            assert(b1[k1] == b[k1 + 1]);
            assert(b1[k2] == b[k2 + 1]);
        }
        lemma_rank_sorted_unique(a1, b1, rank);
        assert forall|k: int| 0 <= k < a.len() implies a[k] == b[k] by {
            if k > 0 {
                assert(a1[k - 1] == a[k]);
                assert(b1[k - 1] == b[k]);
            }
        }
        assert(a =~= b);
    }
}

/// Identity round trip: an ascending-by-creation-index sequence is
/// determined by its identifier set alone. Every sort keeps the identifier
/// set, so `sort_id` after any prior reordering of the children yields
/// exactly the sequence it would yield on the untouched tree — the original
/// creation order. The same fact read twice says `sort_id` is idempotent:
/// a second call reproduces the first call's order.
pub proof fn lemma_id_sorted_unique(a: Seq<NodeId>, b: Seq<NodeId>)
    requires
        id_sorted(a),
        id_sorted(b),
        a.len() == b.len(),
        forall|x: NodeId| a.contains(x) <==> b.contains(x),
    ensures
        a == b,
{
    let rank = |x: NodeId| (x.idx as int, 0int);
    lemma_rank_sorted_unique(a, b, rank);
}

/// Children gain their identifiers in creation order: appending a child
/// whose index is above all its siblings' keeps the chain ascending by
/// creation index. A freshly built chain is therefore in creation order —
/// the order that `sort_id` restores.
pub proof fn lemma_append_keeps_creation_order(before: Seq<NodeId>, id: NodeId)
    requires
        id_sorted(before),
        forall|k: int| 0 <= k < before.len() ==> (#[trigger] before[k]).idx < id.idx,
    ensures
        id_sorted(before.push(id)),
{
    let after = before.push(id);
    assert forall|k1: int, k2: int|
        0 <= k1 < k2 < after.len() implies (#[trigger] after[k1]).idx < (
    #[trigger] after[k2]).idx by {
        assert(after[k1] == before[k1]);
        if k2 < before.len() {
            assert(after[k2] == before[k2]);
        }
    }
}

/// Idempotence of the value sort: if `r1` is the stable ascending-by-value
/// order of some snapshot, then sorting `r1` again by value gives back `r1`
/// itself — the second call changes nothing.
pub proof fn lemma_sort_idempotent(
    snapshot: Seq<NodeId>,
    r1: Seq<NodeId>,
    r2: Seq<NodeId>,
    vals: Seq<u64>,
)
    requires
        r1.no_duplicates(),
        stable_val_sorted(snapshot, r1, vals),
        stable_val_sorted(r1, r2, vals),
        r1.len() == r2.len(),
        forall|x: NodeId| r1.contains(x) <==> r2.contains(x),
    ensures
        r2 == r1,
{
    let rank = |x: NodeId| (vals[x.idx as int] as int, idx_of(r1, x));
    assert forall|k1: int, k2: int|
        0 <= k1 < k2 < r1.len() implies lex_lt(rank(#[trigger] r1[k1]), rank(
    #[trigger] r1[k2])) by {
        lemma_idx_of_unique(r1, r1[k1], k1);
        lemma_idx_of_unique(r1, r1[k2], k2);
    }
    assert forall|k1: int, k2: int|
        0 <= k1 < k2 < r2.len() implies lex_lt(rank(#[trigger] r2[k1]), rank(
    #[trigger] r2[k2])) by {}
    lemma_rank_sorted_unique(r1, r2, rank);
}

} // verus!
