//! The frontier selector: picks the next node to finalize.

use crate::graph::Graph;
use crate::ledger::CostLedger;
use crate::ledger::ProcessedSet;
use vstd::prelude::*;

verus! {

/// Among all registered nodes not yet processed, returns the one with the
/// minimum tentative cost; ties break to the earliest registered node.
/// Returns `None` exactly when every registered node is processed.
pub fn select(g: &Graph, ledger: &CostLedger, processed: &ProcessedSet) -> (r: Option<usize>)
    requires
        ledger.costs@.len() == g.n(),
        processed.flags@.len() == g.n(),
    ensures
        match r {
            Some(u) => 0 <= u < g.n() && !processed.spec_contains(u as int) && (forall|v: int|
                0 <= v < g.n() && !processed.spec_contains(v) ==> ledger.spec_cost(u as int)
                    <= ledger.spec_cost(v)) && (forall|v: int|
                0 <= v < u && !processed.spec_contains(v) ==> ledger.spec_cost(u as int)
                    < ledger.spec_cost(v)),
            None => forall|v: int| 0 <= v < g.n() ==> processed.spec_contains(v),
        },
{
    let n = g.node_count();
    let mut best: Option<usize> = None;
    for i in 0..n
        invariant
            n == g.n(),
            ledger.costs@.len() == g.n(),
            processed.flags@.len() == g.n(),
            match best {
                Some(u) => 0 <= u < i && !processed.spec_contains(u as int) && (forall|v: int|
                    0 <= v < i && !processed.spec_contains(v) ==> ledger.spec_cost(u as int)
                        <= ledger.spec_cost(v)) && (forall|v: int|
                    0 <= v < u && !processed.spec_contains(v) ==> ledger.spec_cost(u as int)
                        < ledger.spec_cost(v)),
                None => forall|v: int| 0 <= v < i ==> processed.spec_contains(v),
            },
    {
        if !processed.contains(i) {
            match best {
                Some(u) => {
                    if ledger.cost_of(i) < ledger.cost_of(u) {
                        best = Some(i);
                    }
                },
                None => {
                    best = Some(i);
                },
            }
        }
    }
    best
}

} // verus!
