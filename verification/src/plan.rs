//! The order planner: from a snapshot of a parent's children it computes the
//! target permutation, without touching the tree. Sorting is stable: entries
//! carry their position in the snapshot as a tie-breaker, so equal keys keep
//! their original relative order.

use core::cmp::Ordering;
use vstd::prelude::*;
use vstd::seq_lib::group_to_multiset_ensures;
use crate::arena::NodeId;
use crate::splice::{idx_of, lemma_idx_of_unique};

verus! {

/// One child in the planner's working vector: the sort key, the child's
/// position in the snapshot (the tie-breaker), and its identifier.
#[derive(Clone, Copy, PartialEq, Eq, Structural)]
pub struct Entry {
    pub key: u64,
    pub tie: usize,
    pub id: NodeId,
}

/// The planner's order: ascending by key, and by snapshot position among
/// equal keys.
pub open spec fn entry_le(a: Entry, b: Entry) -> bool {
    a.key < b.key || (a.key == b.key && a.tie <= b.tie)
}

fn entry_le_exec(a: &Entry, b: &Entry) -> (r: bool)
    ensures
        r == entry_le(*a, *b),
{
    a.key < b.key || (a.key == b.key && a.tie <= b.tie)
}

/// The planner's result is a permutation: every output entry is one of the
/// input entries, sitting at the snapshot position its tie-breaker names,
/// and no two output entries share a tie-breaker. Consequently the output
/// identifiers are a permutation of the snapshot identifiers.
pub proof fn lemma_plan_perm(entries: Seq<Entry>, es: Seq<Entry>, orig: Seq<NodeId>, ids: Seq<NodeId>)
    requires
        orig.no_duplicates(),
        entries.len() == orig.len(),
        forall|k: int|
            0 <= k < entries.len() ==> (#[trigger] entries[k]).tie == k && entries[k].id == orig[k],
        es.to_multiset() == entries.to_multiset(),
        ids.len() == es.len(),
        forall|m: int| 0 <= m < ids.len() ==> #[trigger] ids[m] == es[m].id,
    ensures
        ids.len() == orig.len(),
        ids.no_duplicates(),
        forall|m: int|
            0 <= m < ids.len() ==> 0 <= (#[trigger] es[m]).tie < orig.len() && ids[m] == orig[es[m].tie as int]
                && es[m] == entries[es[m].tie as int],
        forall|x: NodeId| orig.contains(x) <==> ids.contains(x),
        forall|m1: int, m2: int| 0 <= m1 < m2 < es.len() ==> es[m1].tie != es[m2].tie,
        forall|m: int| 0 <= m < ids.len() ==> idx_of(orig, #[trigger] ids[m]) == es[m].tie,
{
    broadcast use group_to_multiset_ensures;

    assert(es.len() == entries.len()) by {
        assert(es.len() == es.to_multiset().len());
        assert(entries.len() == entries.to_multiset().len());
    }
    assert(entries.no_duplicates()) by {
        assert forall|k1: int, k2: int|
            0 <= k1 < k2 < entries.len() implies entries[k1] != entries[k2] by {
            assert(entries[k1].tie == k1);
            assert(entries[k2].tie == k2);
        }
    }
    assert forall|m: int|
        0 <= m < es.len() implies 0 <= (#[trigger] es[m]).tie < orig.len() && es[m] == entries[
        es[m].tie as int] by {
        assert(es.contains(es[m]));
        assert(es.to_multiset().count(es[m]) > 0);
        assert(entries.contains(es[m]));
        let k = choose|k: int| 0 <= k < entries.len() && entries[k] == es[m];
        assert(entries[k].tie == k);
    }
    assert(es.no_duplicates()) by {
        entries.lemma_multiset_has_no_duplicates();
        es.lemma_multiset_has_no_duplicates_conv();
    }
    assert forall|m1: int, m2: int|
        0 <= m1 < m2 < es.len() implies es[m1].tie != es[m2].tie by {
        if es[m1].tie == es[m2].tie {
            assert(es[m1] == entries[es[m1].tie as int]);
            assert(es[m2] == entries[es[m2].tie as int]);
        }
    }
    assert(ids.no_duplicates()) by {
        assert forall|m1: int, m2: int|
            0 <= m1 < m2 < ids.len() implies ids[m1] != ids[m2] by {
            assert(ids[m1] == orig[es[m1].tie as int]);
            assert(ids[m2] == orig[es[m2].tie as int]);
            assert(es[m1].tie != es[m2].tie);
        }
    }
    assert forall|x: NodeId| orig.contains(x) implies ids.contains(x) by {
        let p = choose|p: int| 0 <= p < orig.len() && orig[p] == x;
        assert(entries.contains(entries[p]));
        assert(entries.to_multiset().count(entries[p]) > 0);
        assert(es.contains(entries[p]));
        let m = choose|m: int| 0 <= m < es.len() && es[m] == entries[p];
        assert(ids[m] == x);
    }
    assert forall|x: NodeId| ids.contains(x) implies orig.contains(x) by {
        let m = choose|m: int| 0 <= m < ids.len() && ids[m] == x;
        assert(ids[m] == orig[es[m].tie as int]);
    }
    assert forall|m: int| 0 <= m < ids.len() implies idx_of(orig, #[trigger] ids[m]) == es[m].tie by {
        lemma_idx_of_unique(orig, ids[m], es[m].tie as int);
    }
}

/// Stable insertion sort of the working vector under `entry_le`.
pub fn sort_entries(v: &mut Vec<Entry>)
    ensures
        final(v)@.len() == old(v)@.len(),
        final(v)@.to_multiset() == old(v)@.to_multiset(),
        forall|k1: int, k2: int|
            0 <= k1 < k2 < final(v)@.len() ==> entry_le(
                #[trigger] final(v)@[k1],
                #[trigger] final(v)@[k2],
            ),
{
    broadcast use group_to_multiset_ensures;

    if v.len() <= 1 {
        return ;
    }
    let ghost orig = old(v)@;
    let mut i: usize = 1;
    while i < v.len()
        invariant
            1 <= i <= v@.len(),
            v@.len() == orig.len(),
            v@.to_multiset() == orig.to_multiset(),
            forall|k1: int, k2: int|
                0 <= k1 < k2 < i ==> entry_le(#[trigger] v@[k1], #[trigger] v@[k2]),
        decreases v@.len() - i,
    {
        let ghost v0 = v@;
        let x = v[i];
        let mut p: usize = 0;
        while p < i && entry_le_exec(&v[p], &x)
            invariant
                v@ == v0,
                p <= i,
                i < v0.len(),
                x == v0[i as int],
                forall|m: int| 0 <= m < p ==> entry_le(#[trigger] v0[m], x),
            decreases i - p,
        {
            p += 1;
        }
        let y = v.remove(i);
        v.insert(p, y);
        proof {
            broadcast use group_to_multiset_ensures;

            let t = v0.remove(i as int);
            assert(v0[i as int] == x);
            assert(v0.contains(x));
            assert(v0.to_multiset().count(x) > 0);
            assert(t.to_multiset() == v0.to_multiset().remove(x));
            assert(v@ == t.insert(p as int, x));
            assert(t.insert(p as int, x).to_multiset() == t.to_multiset().insert(x));
            assert(v@.to_multiset() =~= orig.to_multiset());
            assert forall|m: int| 0 <= m < v@.len() implies v@[m] == (if m < p {
                v0[m]
            } else if m == p {
                x
            } else if m <= i {
                v0[m - 1]
            } else {
                v0[m]
            }) by {
                let t = v0.remove(i as int);
                if m < p {
                    assert(v@[m] == t[m]);
                } else if m > p {
                    assert(v@[m] == t[m - 1]);
                }
            }
            assert forall|k1: int, k2: int|
                0 <= k1 < k2 < i + 1 implies entry_le(#[trigger] v@[k1], #[trigger] v@[k2]) by {
                if p < i {
                    assert(!entry_le(v0[p as int], x));
                    assert(entry_le(x, v0[p as int]));
                }
            }
        }
        i += 1;
    }
}

/// What the comparator-driven sort guarantees of two neighbours `a`, `b`:
/// the comparison was observed not to rank them out of order — either some
/// call on `(a, b)` answered non-`Greater`, or a call on `(b, a)` answered
/// `Greater` (the displacement that pushed `b` behind `a`).
pub open spec fn adj_ok<F: Fn(Entry, Entry) -> Ordering>(compare: F, a: Entry, b: Entry) -> bool {
    ||| exists|o: Ordering| call_ensures(compare, (a, b), o) && o != Ordering::Greater
    ||| call_ensures(compare, (b, a), Ordering::Greater)
}

/// Stable insertion sort of the working vector under a caller-supplied
/// comparison: an entry is inserted before the first already-sorted entry
/// that the comparison ranks strictly after it (`Greater`), so entries the
/// comparison ties keep their original relative order.
pub fn sort_entries_by<F: Fn(Entry, Entry) -> Ordering>(v: &mut Vec<Entry>, compare: F)
    requires
        forall|a: Entry, b: Entry| call_requires(compare, (a, b)),
    ensures
        final(v)@.len() == old(v)@.len(),
        final(v)@.to_multiset() == old(v)@.to_multiset(),
        forall|k: int|
            0 <= k && k + 1 < final(v)@.len() ==> adj_ok(
                compare,
                #[trigger] final(v)@[k],
                final(v)@[k + 1],
            ),
{
    broadcast use group_to_multiset_ensures;

    if v.len() <= 1 {
        return ;
    }
    let ghost orig = old(v)@;
    let mut i: usize = 1;
    while i < v.len()
        invariant
            forall|a: Entry, b: Entry| call_requires(compare, (a, b)),
            1 <= i <= v@.len(),
            v@.len() == orig.len(),
            v@.to_multiset() == orig.to_multiset(),
            forall|k: int| 0 <= k && k + 1 < i ==> adj_ok(compare, #[trigger] v@[k], v@[k + 1]),
        decreases v@.len() - i,
    {
        let ghost v0 = v@;
        let x = v[i];
        let mut p: usize = 0;
        loop
            invariant_except_break
                forall|a: Entry, b: Entry| call_requires(compare, (a, b)),
                v@ == v0,
                p <= i,
                i < v0.len(),
                x == v0[i as int],
                forall|m: int|
                    0 <= m < p ==> exists|o: Ordering|
                        call_ensures(compare, (#[trigger] v0[m], x), o) && o != Ordering::Greater,
            ensures
                v@ == v0,
                p <= i,
                forall|m: int|
                    0 <= m < p ==> exists|o: Ordering|
                        call_ensures(compare, (#[trigger] v0[m], x), o) && o != Ordering::Greater,
                p < i ==> call_ensures(compare, (v0[p as int], x), Ordering::Greater),
            decreases i - p,
        {
            if p >= i {
                break ;
            }
            let e = v[p];
            let o = compare(e, x);
            if matches!(o, Ordering::Greater) {
                break ;
            }
            p += 1;
        }
        let y = v.remove(i);
        v.insert(p, y);
        proof {
            broadcast use group_to_multiset_ensures;

            let t = v0.remove(i as int);
            assert(v0[i as int] == x);
            assert(v0.contains(x));
            assert(v0.to_multiset().count(x) > 0);
            assert(t.to_multiset() == v0.to_multiset().remove(x));
            assert(v@ == t.insert(p as int, x));
            assert(t.insert(p as int, x).to_multiset() == t.to_multiset().insert(x));
            assert(v@.to_multiset() =~= orig.to_multiset());
            assert forall|m: int| 0 <= m < v@.len() implies v@[m] == (if m < p {
                v0[m]
            } else if m == p {
                x
            } else if m <= i {
                v0[m - 1]
            } else {
                v0[m]
            }) by {
                if m < p {
                    assert(v@[m] == t[m]);
                } else if m > p {
                    assert(v@[m] == t[m - 1]);
                }
            }
            assert forall|k: int|
                0 <= k && k + 1 < i + 1 implies adj_ok(compare, #[trigger] v@[k], v@[k + 1]) by {
                if k + 1 < p {
                    assert(adj_ok(compare, v0[k], v0[k + 1]));
                } else if k + 1 == p {
                    assert(v@[k] == v0[k]);
                    assert(v@[k + 1] == x);
                } else if k == p {
                    assert(v@[k] == x);
                    assert(v@[k + 1] == v0[k]);
                    assert(call_ensures(compare, (v0[p as int], x), Ordering::Greater));
                } else {
                    assert(v@[k] == v0[k - 1]);
                    assert(v@[k + 1] == v0[k]);
                    assert(adj_ok(compare, v0[k - 1], v0[k]));
                }
            }
        }
        i += 1;
    }
}

} // verus!
