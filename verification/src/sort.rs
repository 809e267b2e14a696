//! Sorting the children of a node.
//!
//! Each operation snapshots the node's current children, plans a stable
//! target order, and realizes that order on the sibling chain through the
//! permutation applier. Only the one parent's sibling chain changes: values,
//! parent links and every other node's children are untouched, so every
//! identifier captured before a sort still resolves to the same value and
//! the same subtree afterwards.

use core::cmp::Ordering;
use vstd::prelude::*;
use crate::arena::{NodeId, NodeMut, Tree};
use crate::apply::apply_order;
use crate::plan::{adj_ok, entry_le, lemma_plan_perm, sort_entries, sort_entries_by, Entry};
use crate::splice::idx_of;

verus! {

/// Build the planner's working vector keyed by the children's values.
fn entries_by_value(tree: &Tree, orig: &Vec<NodeId>) -> (es: Vec<Entry>)
    requires
        forall|m: int| 0 <= m < orig@.len() ==> (#[trigger] orig@[m]).idx < tree.vals@.len(),
    ensures
        es@.len() == orig@.len(),
        forall|m: int|
            0 <= m < orig@.len() ==> #[trigger] es@[m] == (Entry {
                key: tree.vals@[orig@[m].idx as int],
                tie: m as usize,
                id: orig@[m],
            }),
{
    let mut es: Vec<Entry> = Vec::new();
    let mut k: usize = 0;
    while k < orig.len()
        invariant
            forall|m: int| 0 <= m < orig@.len() ==> (#[trigger] orig@[m]).idx < tree.vals@.len(),
            k <= orig@.len(),
            es@.len() == k,
            forall|m: int|
                0 <= m < k ==> #[trigger] es@[m] == (Entry {
                    key: tree.vals@[orig@[m].idx as int],
                    tie: m as usize,
                    id: orig@[m],
                }),
        decreases orig@.len() - k,
    {
        let id_k = orig[k];
        es.push(Entry { key: tree.vals[id_k.idx], tie: k, id: id_k });
        k += 1;
    }
    es
}

/// Build the planner's working vector keyed by the children's creation
/// indices.
fn entries_by_index(orig: &Vec<NodeId>) -> (es: Vec<Entry>)
    ensures
        es@.len() == orig@.len(),
        forall|m: int|
            0 <= m < orig@.len() ==> #[trigger] es@[m] == (Entry {
                key: orig@[m].idx as u64,
                tie: m as usize,
                id: orig@[m],
            }),
{
    let mut es: Vec<Entry> = Vec::new();
    let mut k: usize = 0;
    while k < orig.len()
        invariant
            k <= orig@.len(),
            es@.len() == k,
            forall|m: int|
                0 <= m < k ==> #[trigger] es@[m] == (Entry {
                    key: orig@[m].idx as u64,
                    tie: m as usize,
                    id: orig@[m],
                }),
        decreases orig@.len() - k,
    {
        let id_k = orig[k];
        es.push(Entry { key: id_k.to_index() as u64, tie: k, id: id_k });
        k += 1;
    }
    es
}

/// Read the identifiers out of a sorted working vector, in order.
fn ids_of(entries: &Vec<Entry>) -> (ids: Vec<NodeId>)
    ensures
        ids@.len() == entries@.len(),
        forall|m: int| 0 <= m < entries@.len() ==> #[trigger] ids@[m] == entries@[m].id,
{
    let mut ids: Vec<NodeId> = Vec::new();
    let mut m: usize = 0;
    while m < entries.len()
        invariant
            m <= entries@.len(),
            ids@.len() == m,
            forall|q: int| 0 <= q < m ==> #[trigger] ids@[q] == entries@[q].id,
        decreases entries@.len() - m,
    {
        let e = entries[m];
        ids.push(e.id);
        m += 1;
    }
    ids
}

/// The reorder kept the identifier set: same length, no duplicates, and
/// exactly the identifiers that were there before.
pub open spec fn same_ids(before: Seq<NodeId>, after: Seq<NodeId>) -> bool {
    &&& after.len() == before.len()
    &&& after.no_duplicates()
    &&& forall|x: NodeId| before.contains(x) <==> after.contains(x)
}

/// A sort call touched nothing but the order of `p`'s immediate children:
/// values, parent links, and every other node's child list are unchanged,
/// and `p`'s children are a permutation of what they were.
pub open spec fn sibling_reorder_only(t0: Tree, t1: Tree, p: NodeId) -> bool {
    &&& t1.wf()
    &&& t1.vals@ == t0.vals@
    &&& t1.parents@ == t0.parents@
    &&& t1.kids@.len() == t0.kids@.len()
    &&& forall|q: int|
        0 <= q < t0.kids@.len() && q != p.idx ==> #[trigger] t1.kids@[q]@ == t0.kids@[q]@
    &&& same_ids(t0.children_seq(p), t1.children_seq(p))
}

/// `after` is the stable ascending-by-value reordering of `snapshot`:
/// values are non-decreasing, and equal values keep their relative order
/// from the snapshot.
pub open spec fn stable_val_sorted(snapshot: Seq<NodeId>, after: Seq<NodeId>, vals: Seq<u64>) -> bool {
    forall|k1: int, k2: int|
        0 <= k1 < k2 < after.len() ==> {
            let a = #[trigger] after[k1];
            let b = #[trigger] after[k2];
            vals[a.idx as int] < vals[b.idx as int] || (vals[a.idx as int] == vals[b.idx as int]
                && idx_of(snapshot, a) < idx_of(snapshot, b))
        }
}

/// `after` is in strictly ascending creation-index order.
pub open spec fn id_sorted(after: Seq<NodeId>) -> bool {
    forall|k1: int, k2: int|
        0 <= k1 < k2 < after.len() ==> (#[trigger] after[k1]).idx < (#[trigger] after[k2]).idx
}

/// Rewrite `p`'s sibling chain to read as `target`, a permutation of the
/// current children, through the splice-based applier.
fn reorder_children(tree: &mut Tree, p: NodeId, orig: &Vec<NodeId>, target: &Vec<NodeId>)
    requires
        old(tree).wf(),
        old(tree).valid_id(p),
        orig@ == old(tree).children_seq(p),
        target@.no_duplicates(),
        target@.len() == orig@.len(),
        forall|k: int| 0 <= k < target@.len() ==> orig@.contains(#[trigger] target@[k]),
        forall|x: NodeId| orig@.contains(x) <==> target@.contains(x),
    ensures
        sibling_reorder_only(*old(tree), *final(tree), p),
        final(tree).children_seq(p) == target@,
{
    proof {
        assert(orig@.no_duplicates());
    }
    let mut chain = tree.kids.remove(p.idx);
    apply_order(&mut chain, orig, target);
    tree.kids.insert(p.idx, chain);
    proof {
        let k0 = old(tree).kids@;
        let k1 = k0.remove(p.idx as int);
        assert forall|q: int| 0 <= q < tree.kids@.len() implies tree.kids@[q] == (if q == p.idx {
            k1.insert(p.idx as int, chain)[q]
        } else {
            k0[q]
        }) by {
            if q < p.idx {
                assert(tree.kids@[q] == k1[q]);
            } else if q > p.idx {
                assert(tree.kids@[q] == k1[q - 1]);
            }
        }
        assert(tree.children_seq(p) == target@);
        assert(tree.wf()) by {
            assert forall|q: int, k: int|
                0 <= q < tree.kids@.len() && 0 <= k < tree.kids@[q]@.len() implies (
            #[trigger] tree.kids@[q]@[k]).idx < tree.vals@.len() && tree.parents@[tree.kids@[q]@[k].idx as int]
                == Some(NodeId { idx: q as usize }) by {
                if q == p.idx {
                    assert(orig@.contains(target@[k]));
                    let m = choose|m: int| 0 <= m < orig@.len() && orig@[m] == target@[k];
                    assert(old(tree).kids@[q]@[m] == target@[k]);
                } else {
                    assert(old(tree).kids@[q]@[k] == tree.kids@[q]@[k]);
                }
            }
            assert forall|q: int| 0 <= q < tree.kids@.len() implies (
            #[trigger] tree.kids@[q]@).no_duplicates() by {
                if q != p.idx {
                    assert(tree.kids@[q]@ == old(tree).kids@[q]@);
                }
            }
        }
        assert(same_ids(old(tree).children_seq(p), tree.children_seq(p)));
    }
}

impl NodeMut {
    /// Sort children by value in ascending order.
    ///
    /// Equivalent to `sort_by` with the values' own total order as the
    /// comparison; ties keep their original relative order.
    pub fn sort(&mut self)
        requires
            old(self).wf(),
        ensures
            final(self).wf(),
            final(self).id == old(self).id,
            sibling_reorder_only(old(self).tree, final(self).tree, old(self).id),
            stable_val_sorted(
                old(self).tree.children_seq(old(self).id),
                final(self).tree.children_seq(old(self).id),
                old(self).tree.vals@,
            ),
            old(self).tree.children_seq(old(self).id).len() < 2 ==> final(self).tree == old(
                self,
            ).tree,
    {
        let orig = self.tree.children(self.id);
        if orig.len() < 2 {
            return ;
        }
        proof {
            assert forall|m: int|
                0 <= m < orig@.len() implies (#[trigger] orig@[m]).idx < self.tree.vals@.len() by {
                assert(self.tree.kids@[self.id.idx as int]@[m] == orig@[m]);
            }
        }
        let mut entries = entries_by_value(&self.tree, &orig);
        let ghost entries0 = entries@;
        sort_entries(&mut entries);
        let target = ids_of(&entries);
        proof {
            lemma_plan_perm(entries0, entries@, orig@, target@);
            let es = entries@;
            let vals = old(self).tree.vals@;
            assert forall|k1: int, k2: int|
                0 <= k1 < k2 < target@.len() implies {
                let a = #[trigger] target@[k1];
                let b = #[trigger] target@[k2];
                vals[a.idx as int] < vals[b.idx as int] || (vals[a.idx as int] == vals[b.idx as int]
                    && idx_of(orig@, a) < idx_of(orig@, b))
            } by {
                assert(entry_le(es[k1], es[k2]));
                assert(es[k1] == entries0[es[k1].tie as int]);
                assert(es[k2] == entries0[es[k2].tie as int]);
                assert(es[k1].tie != es[k2].tie);
                assert(es[k1].key == vals[target@[k1].idx as int]);
                assert(es[k2].key == vals[target@[k2].idx as int]);
            }
        }
        reorder_children(&mut self.tree, self.id, &orig, &target);
    }

    /// Sort children by value in ascending order under a caller-supplied
    /// comparison function over two values.
    ///
    /// The contract promises what the pass observed: every two neighbouring
    /// children were compared in order (non-`Greater`), or the later one was
    /// actually ranked `Greater` than the earlier when it was displaced. For
    /// a deterministic strict-weak-order comparison this says the children
    /// are non-decreasing under it; entries the comparison ties keep their
    /// original relative order, though that cannot be stated against an
    /// unknown comparison function.
    pub fn sort_by<F: Fn(u64, u64) -> Ordering>(&mut self, compare: F)
        requires
            old(self).wf(),
            forall|a: u64, b: u64| call_requires(compare, (a, b)),
        ensures
            final(self).wf(),
            final(self).id == old(self).id,
            sibling_reorder_only(old(self).tree, final(self).tree, old(self).id),
            forall|k: int|
                0 <= k && k + 1 < final(self).tree.children_seq(old(self).id).len() ==> {
                    let va = old(self).tree.vals@[(#[trigger] final(self).tree.children_seq(
                        old(self).id,
                    )[k]).idx as int];
                    let vb = old(self).tree.vals@[final(self).tree.children_seq(old(self).id)[k
                        + 1].idx as int];
                    ||| exists|o: Ordering| call_ensures(compare, (va, vb), o) && o
                        != Ordering::Greater
                    ||| call_ensures(compare, (vb, va), Ordering::Greater)
                },
            old(self).tree.children_seq(old(self).id).len() < 2 ==> final(self).tree == old(
                self,
            ).tree,
    {
        let orig = self.tree.children(self.id);
        if orig.len() < 2 {
            return ;
        }
        proof {
            assert forall|m: int|
                0 <= m < orig@.len() implies (#[trigger] orig@[m]).idx < self.tree.vals@.len() by {
                assert(self.tree.kids@[self.id.idx as int]@[m] == orig@[m]);
            }
        }
        let mut entries = entries_by_value(&self.tree, &orig);
        let ghost entries0 = entries@;
        let cmp_ref: &F = &compare;
        let wrapper = |ea: Entry, eb: Entry| -> (o: Ordering)
            requires
                call_requires(cmp_ref, (ea.key, eb.key)),
            ensures
                call_ensures(cmp_ref, (ea.key, eb.key), o),
            { cmp_ref(ea.key, eb.key) };
        sort_entries_by(&mut entries, wrapper);
        let target = ids_of(&entries);
        proof {
            lemma_plan_perm(entries0, entries@, orig@, target@);
            let es = entries@;
            let vals = old(self).tree.vals@;
            assert forall|k: int|
                0 <= k && k + 1 < target@.len() implies {
                let va = vals[(#[trigger] target@[k]).idx as int];
                let vb = vals[target@[k + 1].idx as int];
                ||| exists|o: Ordering| call_ensures(compare, (va, vb), o) && o != Ordering::Greater
                ||| call_ensures(compare, (vb, va), Ordering::Greater)
            } by {
                assert(adj_ok(wrapper, es[k], es[k + 1]));
                assert(es[k] == entries0[es[k].tie as int]);
                assert(es[k + 1] == entries0[es[k + 1].tie as int]);
                assert(es[k].key == vals[target@[k].idx as int]);
                assert(es[k + 1].key == vals[target@[k + 1].idx as int]);
                if exists|o: Ordering|
                    #[trigger] call_ensures(wrapper, (es[k], es[k + 1]), o) && o
                        != Ordering::Greater {
                    let o = choose|o: Ordering|
                        #[trigger] call_ensures(wrapper, (es[k], es[k + 1]), o) && o
                            != Ordering::Greater;
                    assert(call_ensures(compare, (es[k].key, es[k + 1].key), o));
                } else {
                    assert(call_ensures(wrapper, (es[k + 1], es[k]), Ordering::Greater));
                }
            }
        }
        reorder_children(&mut self.tree, self.id, &orig, &target);
    }

    /// Sort children by their identifiers' creation index in ascending
    /// order: restores the original creation order.
    ///
    /// Equivalent to `sort_by_id` with the indices' own order as the
    /// comparison.
    pub fn sort_id(&mut self)
        requires
            old(self).wf(),
        ensures
            final(self).wf(),
            final(self).id == old(self).id,
            sibling_reorder_only(old(self).tree, final(self).tree, old(self).id),
            id_sorted(final(self).tree.children_seq(old(self).id)),
            old(self).tree.children_seq(old(self).id).len() < 2 ==> final(self).tree == old(
                self,
            ).tree,
    {
        let orig = self.tree.children(self.id);
        if orig.len() < 2 {
            return ;
        }
        let mut entries = entries_by_index(&orig);
        let ghost entries0 = entries@;
        sort_entries(&mut entries);
        let target = ids_of(&entries);
        proof {
            lemma_plan_perm(entries0, entries@, orig@, target@);
            let es = entries@;
            assert forall|k1: int, k2: int|
                0 <= k1 < k2 < target@.len() implies (#[trigger] target@[k1]).idx < (
            #[trigger] target@[k2]).idx by {
                assert(entry_le(es[k1], es[k2]));
                assert(es[k1] == entries0[es[k1].tie as int]);
                assert(es[k2] == entries0[es[k2].tie as int]);
                assert(es[k1].key == target@[k1].idx as u64);
                assert(es[k2].key == target@[k2].idx as u64);
                if es[k1].key == es[k2].key {
                    assert(target@[k1] == target@[k2]);
                }
            }
        }
        reorder_children(&mut self.tree, self.id, &orig, &target);
    }

    /// Sort children by their identifiers' creation indices in ascending
    /// order under a caller-supplied comparison function over two indices.
    ///
    /// As for `sort_by`, the contract promises that every two neighbouring
    /// children's creation indices were compared in order, or the later one
    /// was ranked `Greater` than the earlier when it was displaced.
    pub fn sort_by_id<F: Fn(usize, usize) -> Ordering>(&mut self, compare: F)
        requires
            old(self).wf(),
            forall|a: usize, b: usize| call_requires(compare, (a, b)),
        ensures
            final(self).wf(),
            final(self).id == old(self).id,
            sibling_reorder_only(old(self).tree, final(self).tree, old(self).id),
            forall|k: int|
                0 <= k && k + 1 < final(self).tree.children_seq(old(self).id).len() ==> {
                    let ia = (#[trigger] final(self).tree.children_seq(old(self).id)[k]).idx;
                    let ib = final(self).tree.children_seq(old(self).id)[k + 1].idx;
                    ||| exists|o: Ordering| call_ensures(compare, (ia, ib), o) && o
                        != Ordering::Greater
                    ||| call_ensures(compare, (ib, ia), Ordering::Greater)
                },
            old(self).tree.children_seq(old(self).id).len() < 2 ==> final(self).tree == old(
                self,
            ).tree,
    {
        let orig = self.tree.children(self.id);
        if orig.len() < 2 {
            return ;
        }
        let mut entries = entries_by_index(&orig);
        let ghost entries0 = entries@;
        let cmp_ref: &F = &compare;
        let wrapper = |ea: Entry, eb: Entry| -> (o: Ordering)
            requires
                call_requires(cmp_ref, (ea.id.idx, eb.id.idx)),
            ensures
                call_ensures(cmp_ref, (ea.id.idx, eb.id.idx), o),
            { cmp_ref(ea.id.to_index(), eb.id.to_index()) };
        sort_entries_by(&mut entries, wrapper);
        let target = ids_of(&entries);
        proof {
            lemma_plan_perm(entries0, entries@, orig@, target@);
            let es = entries@;
            assert forall|k: int|
                0 <= k && k + 1 < target@.len() implies {
                let ia = (#[trigger] target@[k]).idx;
                let ib = target@[k + 1].idx;
                ||| exists|o: Ordering| call_ensures(compare, (ia, ib), o) && o != Ordering::Greater
                ||| call_ensures(compare, (ib, ia), Ordering::Greater)
            } by {
                assert(adj_ok(wrapper, es[k], es[k + 1]));
                assert(es[k].id == target@[k]);
                assert(es[k + 1].id == target@[k + 1]);
                if exists|o: Ordering|
                    #[trigger] call_ensures(wrapper, (es[k], es[k + 1]), o) && o
                        != Ordering::Greater {
                    let o = choose|o: Ordering|
                        #[trigger] call_ensures(wrapper, (es[k], es[k + 1]), o) && o
                            != Ordering::Greater;
                    assert(call_ensures(compare, (es[k].id.idx, es[k + 1].id.idx), o));
                } else {
                    assert(call_ensures(wrapper, (es[k + 1], es[k]), Ordering::Greater));
                }
            }
        }
        reorder_children(&mut self.tree, self.id, &orig, &target);
    }

    /// Sort children ascending by a key extracted from each value, stably:
    /// children whose extracted keys are equal keep their original relative
    /// order.
    ///
    /// The contract exhibits a sequence of keys, one per child, that the
    /// key function can return for that child's value, such that the new
    /// order is ascending by key with ties broken by snapshot position.
    pub fn sort_by_key<F: Fn(u64) -> u64>(&mut self, f: F)
        requires
            old(self).wf(),
            forall|a: u64| call_requires(f, (a,)),
        ensures
            final(self).wf(),
            final(self).id == old(self).id,
            sibling_reorder_only(old(self).tree, final(self).tree, old(self).id),
            old(self).tree.children_seq(old(self).id).len() >= 2 ==> exists|ks: Seq<u64>|
                {
                    let snapshot = old(self).tree.children_seq(old(self).id);
                    let after = final(self).tree.children_seq(old(self).id);
                    let vals = old(self).tree.vals@;
                    &&& #[trigger] ks.len() == after.len()
                    &&& forall|m: int|
                        0 <= m < after.len() ==> call_ensures(
                            f,
                            (vals[after[m].idx as int],),
                            #[trigger] ks[m],
                        )
                    &&& forall|k1: int, k2: int|
                        0 <= k1 < k2 < after.len() ==> #[trigger] ks[k1] < #[trigger] ks[k2] || (
                        ks[k1] == ks[k2] && idx_of(snapshot, after[k1]) < idx_of(
                            snapshot,
                            after[k2],
                        ))
                },
            old(self).tree.children_seq(old(self).id).len() < 2 ==> final(self).tree == old(
                self,
            ).tree,
    {
        let orig = self.tree.children(self.id);
        if orig.len() < 2 {
            return ;
        }
        proof {
            assert forall|m: int|
                0 <= m < orig@.len() implies (#[trigger] orig@[m]).idx < self.tree.vals@.len() by {
                assert(self.tree.kids@[self.id.idx as int]@[m] == orig@[m]);
            }
        }
        let mut entries: Vec<Entry> = Vec::new();
        let mut k: usize = 0;
        while k < orig.len()
            invariant
                *self == *old(self),
                old(self).wf(),
                forall|a: u64| call_requires(f, (a,)),
                forall|m: int|
                    0 <= m < orig@.len() ==> (#[trigger] orig@[m]).idx < self.tree.vals@.len(),
                k <= orig@.len(),
                entries@.len() == k,
                forall|m: int|
                    0 <= m < k ==> (#[trigger] entries@[m]).tie == m && entries@[m].id == orig@[m]
                        && call_ensures(
                        f,
                        (old(self).tree.vals@[orig@[m].idx as int],),
                        entries@[m].key,
                    ),
            decreases orig@.len() - k,
        {
            let id_k = orig[k];
            let key_k = f(self.tree.value(id_k));
            entries.push(Entry { key: key_k, tie: k, id: id_k });
            k += 1;
        }
        let ghost entries0 = entries@;
        sort_entries(&mut entries);
        let target = ids_of(&entries);
        proof {
            lemma_plan_perm(entries0, entries@, orig@, target@);
            let es = entries@;
            let vals = old(self).tree.vals@;
            let w = Seq::<u64>::new(target@.len(), |m: int| es[m].key);
            assert(w.len() == target@.len());
            assert forall|m: int|
                0 <= m < target@.len() implies call_ensures(
                f,
                (vals[target@[m].idx as int],),
                #[trigger] w[m],
            ) by {
                assert(es[m] == entries0[es[m].tie as int]);
                assert(target@[m] == orig@[es[m].tie as int]);
            }
            assert forall|k1: int, k2: int|
                0 <= k1 < k2 < target@.len() implies #[trigger] w[k1] < #[trigger] w[k2] || (w[k1]
                == w[k2] && idx_of(orig@, target@[k1]) < idx_of(orig@, target@[k2])) by {
                assert(entry_le(es[k1], es[k2]));
                assert(es[k1].tie != es[k2].tie);
            }
        }
        reorder_children(&mut self.tree, self.id, &orig, &target);
    }

    /// Sort children ascending by a key derived from each child's creation
    /// index and value, stably: equal keys keep their original relative
    /// order.
    pub fn sort_by_id_key<F: Fn(usize, u64) -> u64>(&mut self, f: F)
        requires
            old(self).wf(),
            forall|a: usize, b: u64| call_requires(f, (a, b)),
        ensures
            final(self).wf(),
            final(self).id == old(self).id,
            sibling_reorder_only(old(self).tree, final(self).tree, old(self).id),
            old(self).tree.children_seq(old(self).id).len() >= 2 ==> exists|ks: Seq<u64>|
                {
                    let snapshot = old(self).tree.children_seq(old(self).id);
                    let after = final(self).tree.children_seq(old(self).id);
                    let vals = old(self).tree.vals@;
                    &&& #[trigger] ks.len() == after.len()
                    &&& forall|m: int|
                        0 <= m < after.len() ==> call_ensures(
                            f,
                            (after[m].idx, vals[after[m].idx as int]),
                            #[trigger] ks[m],
                        )
                    &&& forall|k1: int, k2: int|
                        0 <= k1 < k2 < after.len() ==> #[trigger] ks[k1] < #[trigger] ks[k2] || (
                        ks[k1] == ks[k2] && idx_of(snapshot, after[k1]) < idx_of(
                            snapshot,
                            after[k2],
                        ))
                },
            old(self).tree.children_seq(old(self).id).len() < 2 ==> final(self).tree == old(
                self,
            ).tree,
    {
        let orig = self.tree.children(self.id);
        if orig.len() < 2 {
            return ;
        }
        proof {
            assert forall|m: int|
                0 <= m < orig@.len() implies (#[trigger] orig@[m]).idx < self.tree.vals@.len() by {
                assert(self.tree.kids@[self.id.idx as int]@[m] == orig@[m]);
            }
        }
        let mut entries: Vec<Entry> = Vec::new();
        let mut k: usize = 0;
        while k < orig.len()
            invariant
                *self == *old(self),
                old(self).wf(),
                forall|a: usize, b: u64| call_requires(f, (a, b)),
                forall|m: int|
                    0 <= m < orig@.len() ==> (#[trigger] orig@[m]).idx < self.tree.vals@.len(),
                k <= orig@.len(),
                entries@.len() == k,
                forall|m: int|
                    0 <= m < k ==> (#[trigger] entries@[m]).tie == m && entries@[m].id == orig@[m]
                        && call_ensures(
                        f,
                        (orig@[m].idx, old(self).tree.vals@[orig@[m].idx as int]),
                        entries@[m].key,
                    ),
            decreases orig@.len() - k,
        {
            let id_k = orig[k];
            let key_k = f(id_k.to_index(), self.tree.value(id_k));
            entries.push(Entry { key: key_k, tie: k, id: id_k });
            k += 1;
        }
        let ghost entries0 = entries@;
        sort_entries(&mut entries);
        let target = ids_of(&entries);
        proof {
            lemma_plan_perm(entries0, entries@, orig@, target@);
            let es = entries@;
            let vals = old(self).tree.vals@;
            let w = Seq::<u64>::new(target@.len(), |m: int| es[m].key);
            assert(w.len() == target@.len());
            assert forall|m: int|
                0 <= m < target@.len() implies call_ensures(
                f,
                (target@[m].idx, vals[target@[m].idx as int]),
                #[trigger] w[m],
            ) by {
                assert(es[m] == entries0[es[m].tie as int]);
                assert(target@[m] == orig@[es[m].tie as int]);
            }
            assert forall|k1: int, k2: int|
                0 <= k1 < k2 < target@.len() implies #[trigger] w[k1] < #[trigger] w[k2] || (w[k1]
                == w[k2] && idx_of(orig@, target@[k1]) < idx_of(orig@, target@[k2])) by {
                assert(entry_le(es[k1], es[k2]));
                assert(es[k1].tie != es[k2].tie);
            }
        }
        reorder_children(&mut self.tree, self.id, &orig, &target);
    }
}

} // verus!
