//! Per-query state: the cost ledger, the predecessor map and the processed
//! set. All three are created fresh for one shortest-path query.

use vstd::pervasive::VecAdditionalExecFns;
use vstd::prelude::*;

verus! {

/// The sentinel distance for a node that relaxation has not reached.
pub const INFINITE_COST: u64 = u64::MAX;

/// Tentative distances from the start node, one slot per registered node.
///
/// Seeded with the start node at distance 0; every other node holds the
/// "infinite" sentinel until relaxation first touches it. The engine only
/// ever overwrites a slot with a smaller value.
pub struct CostLedger {
    pub costs: Vec<u64>,
}

impl CostLedger {
    /// The tentative distance of node `i`; nodes outside the registry are
    /// treated as unreached.
    pub open spec fn spec_cost(self, i: int) -> u64 {
        if 0 <= i < self.costs@.len() {
            self.costs@[i]
        } else {
            INFINITE_COST
        }
    }

    /// Makes a ledger for `n` nodes with the start node at distance 0 and
    /// every other node at the sentinel.
    pub fn new(n: usize, start: usize) -> (r: CostLedger)
        requires
            start < n,
        ensures
            r.costs@.len() == n,
            r.spec_cost(start as int) == 0,
            forall|i: int| 0 <= i < n && i != start ==> r.spec_cost(i) == INFINITE_COST,
    {
        let mut costs: Vec<u64> = Vec::new();
        for i in 0..n
            invariant
                costs@.len() == i,
                forall|k: int| 0 <= k < i ==> costs@[k] == INFINITE_COST,
        {
            costs.push(INFINITE_COST);
        }
        costs.set(start, 0);
        CostLedger { costs }
    }

    /// The current tentative distance of node `i`, the sentinel if `i` was
    /// never assigned one.
    pub fn cost_of(&self, i: usize) -> (r: u64)
        ensures
            r == self.spec_cost(i as int),
    {
        if i < self.costs.len() {
            self.costs[i]
        } else {
            INFINITE_COST
        }
    }

    /// Unconditionally overwrites the distance of node `i`. The engine, not
    /// the ledger, guarantees that it only ever writes improving values.
    pub fn set_cost(&mut self, i: usize, value: u64)
        requires
            i < old(self).costs@.len(),
        ensures
            final(self).costs@ == old(self).costs@.update(i as int, value),
    {
        self.costs.set(i, value);
    }
}

/// For each node, the node that currently yields its best known path from
/// the start, if relaxation has recorded one.
pub struct PredecessorMap {
    pub parents: Vec<Option<usize>>,
}

impl PredecessorMap {
    /// Makes an empty map for `n` nodes.
    pub fn new(n: usize) -> (r: PredecessorMap)
        ensures
            r.parents@.len() == n,
            forall|i: int| 0 <= i < n ==> (#[trigger] r.parents@[i]) is None,
    {
        let mut parents: Vec<Option<usize>> = Vec::new();
        for i in 0..n
            invariant
                parents@.len() == i,
                forall|k: int| 0 <= k < i ==> (#[trigger] parents@[k]) is None,
        {
            parents.push(None);
        }
        PredecessorMap { parents }
    }

    /// The recorded predecessor of node `i`, if any.
    pub fn get(&self, i: usize) -> (r: Option<usize>)
        requires
            i < self.parents@.len(),
        ensures
            r == self.parents@[i as int],
    {
        self.parents[i]
    }

    /// Records `parent` as the predecessor of node `i`, overwriting any
    /// earlier record.
    pub fn set(&mut self, i: usize, parent: usize)
        requires
            i < old(self).parents@.len(),
        ensures
            final(self).parents@ == old(self).parents@.update(i as int, Some(parent)),
    {
        self.parents.set(i, Some(parent));
    }
}

/// The nodes whose shortest distance is final, in the order they were
/// finalized. A node enters once and is never removed.
pub struct ProcessedSet {
    pub flags: Vec<bool>,
    pub order: Vec<usize>,
}

impl ProcessedSet {
    /// Whether node `i` has been finalized.
    pub open spec fn spec_contains(self, i: int) -> bool {
        0 <= i < self.flags@.len() && self.flags@[i]
    }

    /// The flag vector and the order list agree: the order lists exactly the
    /// flagged nodes, each once.
    pub open spec fn wf(self) -> bool {
        &&& forall|k: int|
            0 <= k < self.order@.len() ==> self.spec_contains(#[trigger] self.order@[k] as int)
        &&& forall|k: int, l: int|
            0 <= k < l < self.order@.len() ==> (#[trigger] self.order@[k]) != (
            #[trigger] self.order@[l])
        &&& forall|i: int|
            self.spec_contains(i) ==> exists|k: int|
                0 <= k < self.order@.len() && (#[trigger] self.order@[k]) as int == i
    }

    /// Makes an empty processed set for `n` nodes.
    pub fn new(n: usize) -> (r: ProcessedSet)
        ensures
            r.wf(),
            r.flags@.len() == n,
            r.order@.len() == 0,
            forall|i: int| !r.spec_contains(i),
    {
        let mut flags: Vec<bool> = Vec::new();
        for i in 0..n
            invariant
                flags@.len() == i,
                forall|k: int| 0 <= k < i ==> !(#[trigger] flags@[k]),
        {
            flags.push(false);
        }
        ProcessedSet { flags, order: Vec::new() }
    }

    /// Whether node `i` has been finalized.
    pub fn contains(&self, i: usize) -> (r: bool)
        ensures
            r == self.spec_contains(i as int),
    {
        i < self.flags.len() && self.flags[i]
    }

    /// Finalizes node `i`, appending it to the processed order.
    pub fn mark(&mut self, i: usize)
        requires
            old(self).wf(),
            i < old(self).flags@.len(),
            !old(self).spec_contains(i as int),
        ensures
            final(self).wf(),
            final(self).flags@ == old(self).flags@.update(i as int, true),
            final(self).order@ == old(self).order@.push(i),
    {
        self.flags.set(i, true);
        self.order.push(i);
        proof {
            let o = old(self).order@;
            assert forall|k: int, l: int|
                0 <= k < l < self.order@.len() implies (#[trigger] self.order@[k]) != (
            #[trigger] self.order@[l]) by {
                if l == o.len() {
                    assert(old(self).spec_contains(o[k] as int));
                }
            };
            assert forall|j: int| self.spec_contains(j) implies exists|k: int|
                0 <= k < self.order@.len() && (#[trigger] self.order@[k]) as int == j by {
                if j == i as int {
                    assert(self.order@[o.len() as int] as int == j);
                } else {
                    assert(old(self).spec_contains(j));
                    let k = choose|k: int|
                        0 <= k < o.len() && (#[trigger] o[k]) as int == j;
                    assert(self.order@[k] as int == j);
                }
            };
        }
    }

    /// The nodes finalized so far, in finalization order.
    pub fn order(&self) -> (r: &Vec<usize>)
        ensures
            r@ == self.order@,
    {
        &self.order
    }

    /// How many nodes have been finalized.
    pub fn count(&self) -> (r: usize)
        ensures
            r == self.order@.len(),
    {
        self.order.len()
    }
}

} // verus!
