//! The shortest-path engine: the Dijkstra relaxation loop and the path
//! reconstruction that follows it.

use crate::frontier::select;
use crate::graph::lemma_path_cost_prepend;
use crate::graph::lemma_path_cost_push;
use crate::graph::lemma_path_drop_last;
use crate::graph::Graph;
use crate::graph::GraphError;
use crate::graph::Node;
use crate::ledger::CostLedger;
use crate::ledger::PredecessorMap;
use crate::ledger::ProcessedSet;
use crate::ledger::INFINITE_COST;
use vstd::prelude::*;

verus! {

/// A computed shortest path: the node identifiers from start to end in
/// order, and the total cost of the traversed edges.
pub struct PathResult {
    pub nodes: Vec<String>,
    pub cost: u64,
}

/// The node positions visited by edge chain `p` when it starts at node `s`:
/// `s` first, then the end of each edge in order.
pub open spec fn chain_nodes(g: Graph, p: Seq<int>, s: int) -> Seq<int> {
    seq![s] + p.map_values(|j: int| g.edges@[j].end as int)
}

/// The identifiers of the nodes at positions `ns`.
pub open spec fn ids_of(g: Graph, ns: Seq<int>) -> Seq<Seq<char>> {
    ns.map_values(|i: int| g.nodes@[i].id@)
}

/// Addition that sticks at the sentinel instead of wrapping.
fn sat_add(a: u64, b: u64) -> (r: u64)
    ensures
        a + b >= INFINITE_COST ==> r == INFINITE_COST,
        a + b < INFINITE_COST ==> r == a + b,
{
    if a <= u64::MAX - b {
        a + b
    } else {
        u64::MAX
    }
}

/// Whether `u` is finalized strictly before `v` in the processed order.
pub open spec fn before_in(order: Seq<usize>, u: int, v: int) -> bool {
    exists|k1: int, k2: int|
        0 <= k1 < k2 < order.len() && (#[trigger] order[k1]) as int == u && (
        #[trigger] order[k2]) as int == v
}

/// The position of node `v` in the processed order.
pub open spec fn pos_of(order: Seq<usize>, v: int) -> int {
    choose|k: int| 0 <= k < order.len() && (#[trigger] order[k]) as int == v
}

/// The state the relaxation loop maintains: the ledger holds, for every
/// finalized node, its true least path cost from the start; every edge out
/// of a finalized node is relaxed; and the predecessor map records, for
/// every node with a finite tentative cost, an edge that attains it from an
/// earlier-finalized node.
pub open spec fn relax_inv(
    g: Graph,
    si: int,
    led: CostLedger,
    pm: PredecessorMap,
    ps: ProcessedSet,
) -> bool {
    &&& led.costs@.len() == g.n()
    &&& pm.parents@.len() == g.n()
    &&& ps.flags@.len() == g.n()
    &&& ps.wf()
    &&& 0 <= si < g.n()
    &&& led.spec_cost(si) == 0
    &&& pm.parents@[si] is None
    // every path into a finalized node costs at least its ledger entry
    &&& forall|v: int, q: Seq<int>|
        ps.spec_contains(v) && #[trigger] g.is_path(q, si, v) ==> g.path_cost(q)
            >= led.spec_cost(v)
    // every edge out of a finalized node into an unfinalized one is relaxed
    &&& forall|j: int|
        g.edge_ok(j) && ps.spec_contains((#[trigger] g.edges@[j]).start as int)
            && !ps.spec_contains(g.edges@[j].end as int) ==> led.spec_cost(
            g.edges@[j].end as int,
        ) <= led.spec_cost(g.edges@[j].start as int) + g.edges@[j].weight
    // each recorded predecessor is finalized, earlier, and attains the cost
    &&& forall|v: int|
        0 <= v < g.n() ==> ((#[trigger] pm.parents@[v]) matches Some(u) ==> 0 <= u < g.n()
            && ps.spec_contains(u as int) && led.spec_cost(u as int) < INFINITE_COST && (exists|
            j: int,
        |
            g.edge_ok(j) && (#[trigger] g.edges@[j]).start == u && g.edges@[j].end as int == v
                && led.spec_cost(v) == led.spec_cost(u as int) + g.edges@[j].weight) && (
        ps.spec_contains(v) ==> before_in(ps.order@, u as int, v)))
    // a node with a finite cost other than the start has a predecessor
    &&& forall|v: int|
        0 <= v < g.n() && v != si && led.spec_cost(v) < INFINITE_COST ==> (
        #[trigger] pm.parents@[v]) is Some
}

/// The heart of Dijkstra's argument: if `m` is a lower bound on the
/// tentative cost of every unfinalized node, then every path from the start
/// to an unfinalized node costs at least `m`. Walking any such path, the
/// last edge either leaves a finalized node — whose ledger entry is already
/// a lower bound on the path prefix, and whose outgoing edges are relaxed —
/// or leaves an unfinalized node, to which the claim applies inductively.
pub proof fn lemma_frontier_bound(
    g: Graph,
    si: int,
    led: CostLedger,
    ps: ProcessedSet,
    m: u64,
    v: int,
    q: Seq<int>,
)
    requires
        g.wf(),
        led.costs@.len() == g.n(),
        ps.flags@.len() == g.n(),
        0 <= si < g.n(),
        led.spec_cost(si) == 0,
        forall|x: int, r: Seq<int>|
            ps.spec_contains(x) && #[trigger] g.is_path(r, si, x) ==> g.path_cost(r)
                >= led.spec_cost(x),
        forall|j: int|
            g.edge_ok(j) && ps.spec_contains((#[trigger] g.edges@[j]).start as int)
                && !ps.spec_contains(g.edges@[j].end as int) ==> led.spec_cost(
                g.edges@[j].end as int,
            ) <= led.spec_cost(g.edges@[j].start as int) + g.edges@[j].weight,
        0 <= v < g.n(),
        !ps.spec_contains(v),
        forall|x: int|
            0 <= x < g.n() && !ps.spec_contains(x) ==> m <= #[trigger] led.spec_cost(x),
        g.is_path(q, si, v),
    ensures
        g.path_cost(q) >= m,
    decreases q.len(),
{
    if q.len() == 0 {
        assert(v == si);
        assert(m <= led.spec_cost(si));
    } else {
        let j = q[q.len() - 1];
        let q2 = q.drop_last();
        let x = g.edges@[j].start as int;
        lemma_path_drop_last(g, q, si, v);
        assert(q =~= q2.push(j));
        lemma_path_cost_push(g, q2, j);
        if ps.spec_contains(x) {
            assert(g.path_cost(q2) >= led.spec_cost(x));
            assert(led.spec_cost(v) <= led.spec_cost(x) + g.edges@[j].weight);
            assert(m <= led.spec_cost(v));
        } else {
            lemma_frontier_bound(g, si, led, ps, m, x, q2);
        }
    }
}

/// How one relaxation pass from node `u` may change the slot of node `v`:
/// either the slot is untouched, or `v` is unfinalized and its cost dropped
/// to the cost of reaching it through `u` along some edge, with `u` recorded
/// as its predecessor.
pub open spec fn relaxed_slot(
    g: Graph,
    u: int,
    led0: CostLedger,
    par0: PredecessorMap,
    led: CostLedger,
    pm: PredecessorMap,
    ps: ProcessedSet,
    v: int,
) -> bool {
    ||| (led.spec_cost(v) == led0.spec_cost(v) && pm.parents@[v] == par0.parents@[v])
    ||| (!ps.spec_contains(v) && pm.parents@[v] == Some(u as usize) && led.spec_cost(v)
        < led0.spec_cost(v) && led.spec_cost(v) < INFINITE_COST && (exists|j: int|
        g.edge_ok(j) && (#[trigger] g.edges@[j]).start as int == u && g.edges@[j].end as int == v
            && led.spec_cost(v) == led0.spec_cost(u) + g.edges@[j].weight))
}

/// Two relaxation changes to the same slot, made by the same pass, compose
/// to one.
proof fn lemma_relaxed_slot_trans(
    g: Graph,
    u: int,
    led0: CostLedger,
    par0: PredecessorMap,
    led1: CostLedger,
    pm1: PredecessorMap,
    led2: CostLedger,
    pm2: PredecessorMap,
    ps: ProcessedSet,
    v: int,
)
    requires
        ps.spec_contains(u),
        led1.spec_cost(u) == led0.spec_cost(u),
        relaxed_slot(g, u, led0, par0, led1, pm1, ps, v),
        relaxed_slot(g, u, led1, pm1, led2, pm2, ps, v),
    ensures
        relaxed_slot(g, u, led0, par0, led2, pm2, ps, v),
{
}

/// A processed set over `n` nodes finalizes each node at most once, so its
/// order lists at most `n` entries.
proof fn lemma_order_bound(ps: ProcessedSet, n: int)
    requires
        ps.wf(),
        ps.flags@.len() == n,
    ensures
        ps.order@.len() <= n,
{
    broadcast use vstd::seq_lib::seq_to_set_is_finite;
    broadcast use vstd::set::group_set_axioms;

    let s = ps.order@.map_values(|x: usize| x as int);
    assert forall|k1: int, k2: int| 0 <= k1 < k2 < s.len() implies s[k1] != s[k2] by {
        assert(ps.order@[k1] != ps.order@[k2]);
    };
    assert(s.no_duplicates());
    s.unique_seq_to_set();
    let range = vstd::set_lib::set_int_range(0, n);
    assert forall|x: int| s.to_set().contains(x) implies range.contains(x) by {
        let k = choose|k: int| 0 <= k < s.len() && s[k] == x;
        assert(ps.spec_contains(ps.order@[k] as int));
    };
    assert(s.to_set() <= range);
    vstd::set_lib::lemma_int_range(0, n);
    vstd::set_lib::lemma_len_subset(s.to_set(), range);
}

/// In a well-formed processed set, a finalized node occupies exactly one
/// position in the order, and `pos_of` names it.
proof fn lemma_pos_of(ps: ProcessedSet, v: int)
    requires
        ps.wf(),
        ps.spec_contains(v),
    ensures
        0 <= pos_of(ps.order@, v) < ps.order@.len(),
        ps.order@[pos_of(ps.order@, v)] as int == v,
        forall|k: int|
            0 <= k < ps.order@.len() && (#[trigger] ps.order@[k]) as int == v ==> k == pos_of(
                ps.order@,
                v,
            ),
{
    let o = ps.order@;
    let k0 = choose|k: int| 0 <= k < o.len() && (#[trigger] o[k]) as int == v;
    assert(0 <= k0 < o.len() && o[k0] as int == v);
    assert(0 <= pos_of(o, v) < o.len() && o[pos_of(o, v)] as int == v);
    assert forall|k: int| 0 <= k < o.len() && (#[trigger] o[k]) as int == v implies k == pos_of(
        o,
        v,
    ) by {
        let p = pos_of(o, v);
        if k < p {
            assert(o[k] != o[p]);
        } else if p < k {
            assert(o[p] != o[k]);
        }
    };
}

/// A node finalized before another stands earlier in the processed order.
proof fn lemma_before_pos(ps: ProcessedSet, u: int, v: int)
    requires
        ps.wf(),
        ps.spec_contains(u),
        ps.spec_contains(v),
        before_in(ps.order@, u, v),
    ensures
        pos_of(ps.order@, u) < pos_of(ps.order@, v),
{
    let o = ps.order@;
    let (k1, k2) = choose|k1: int, k2: int|
        0 <= k1 < k2 < o.len() && (#[trigger] o[k1]) as int == u && (#[trigger] o[k2]) as int == v;
    lemma_pos_of(ps, u);
    lemma_pos_of(ps, v);
    assert(k1 == pos_of(o, u));
    assert(k2 == pos_of(o, v));
}

/// One relaxation pass: for every edge out of the just-finalized node `u`,
/// lower the tentative cost of its unfinalized end node to the cost through
/// `u` where that improves it, recording `u` as the predecessor.
fn relax_from(
    g: &Graph,
    u: usize,
    ledger: &mut CostLedger,
    parents: &mut PredecessorMap,
    processed: &ProcessedSet,
)
    requires
        g.wf(),
        u < g.n(),
        old(ledger).costs@.len() == g.n(),
        old(parents).parents@.len() == g.n(),
        processed.flags@.len() == g.n(),
        processed.spec_contains(u as int),
    ensures
        final(ledger).costs@.len() == g.n(),
        final(parents).parents@.len() == g.n(),
        forall|v: int|
            0 <= v < g.n() ==> #[trigger] relaxed_slot(
                *g,
                u as int,
                *old(ledger),
                *old(parents),
                *final(ledger),
                *final(parents),
                *processed,
                v,
            ),
        forall|j: int|
            g.edge_ok(j) && (#[trigger] g.edges@[j]).start == u && !processed.spec_contains(
                g.edges@[j].end as int,
            ) ==> final(ledger).spec_cost(g.edges@[j].end as int) <= old(ledger).spec_cost(
                u as int,
            ) + g.edges@[j].weight,
{
    let ghost led0 = *ledger;
    let ghost par0 = *parents;
    let edge_count = g.edges.len();
    for j in 0..edge_count
        invariant
            g.wf(),
            u < g.n(),
            edge_count == g.edges@.len(),
            ledger.costs@.len() == g.n(),
            parents.parents@.len() == g.n(),
            processed.flags@.len() == g.n(),
            processed.spec_contains(u as int),
            ledger.spec_cost(u as int) == led0.spec_cost(u as int),
            forall|v: int|
                0 <= v < g.n() ==> #[trigger] relaxed_slot(
                    *g,
                    u as int,
                    led0,
                    par0,
                    *ledger,
                    *parents,
                    *processed,
                    v,
                ),
            forall|k: int|
                0 <= k < j && (#[trigger] g.edges@[k]).start == u && !processed.spec_contains(
                    g.edges@[k].end as int,
                ) ==> ledger.spec_cost(g.edges@[k].end as int) <= led0.spec_cost(u as int)
                    + g.edges@[k].weight,
    {
        let e_start = g.edges[j].start;
        let e_end = g.edges[j].end;
        let e_weight = g.edges[j].weight;
        if e_start == u {
            if !processed.contains(e_end) {
                let du = ledger.cost_of(u);
                let cand = sat_add(du, e_weight);
                if cand < ledger.cost_of(e_end) {
                    let ghost led1 = *ledger;
                    let ghost par1 = *parents;
                    ledger.set_cost(e_end, cand);
                    parents.set(e_end, u);
                    proof {
                        let vi = e_end as int;
                        assert(cand == led1.spec_cost(u as int) + e_weight);
                        assert(ledger.spec_cost(u as int) == led1.spec_cost(u as int));
                        assert forall|v: int| 0 <= v < g.n() implies #[trigger] relaxed_slot(
                            *g,
                            u as int,
                            led0,
                            par0,
                            *ledger,
                            *parents,
                            *processed,
                            v,
                        ) by {
                            assert(relaxed_slot(*g, u as int, led0, par0, led1, par1, *processed, v));
                            if v == vi {
                                assert(g.edge_ok(j as int) && g.edges@[j as int].start == u
                                    && g.edges@[j as int].end as int == vi && ledger.spec_cost(vi)
                                    == led1.spec_cost(u as int) + g.edges@[j as int].weight);
                                assert(relaxed_slot(
                                    *g,
                                    u as int,
                                    led1,
                                    par1,
                                    *ledger,
                                    *parents,
                                    *processed,
                                    v,
                                ));
                            } else {
                                assert(ledger.spec_cost(v) == led1.spec_cost(v)
                                    && parents.parents@[v] == par1.parents@[v]);
                                assert(relaxed_slot(
                                    *g,
                                    u as int,
                                    led1,
                                    par1,
                                    *ledger,
                                    *parents,
                                    *processed,
                                    v,
                                ));
                            }
                            lemma_relaxed_slot_trans(
                                *g,
                                u as int,
                                led0,
                                par0,
                                led1,
                                par1,
                                *ledger,
                                *parents,
                                *processed,
                                v,
                            );
                        };
                        assert forall|k: int|
                            0 <= k < j + 1 && (#[trigger] g.edges@[k]).start == u
                                && !processed.spec_contains(g.edges@[k].end as int) implies
                            ledger.spec_cost(g.edges@[k].end as int) <= led0.spec_cost(u as int)
                                + g.edges@[k].weight by {
                            if k < j {
                                if g.edges@[k].end as int == vi {
                                    assert(ledger.spec_cost(vi) < led1.spec_cost(vi));
                                } else {
                                    assert(ledger.spec_cost(g.edges@[k].end as int)
                                        == led1.spec_cost(g.edges@[k].end as int));
                                }
                            } else {
                                assert(ledger.spec_cost(vi) == cand);
                            }
                        };
                    }
                }
            }
        }
    }
}

/// Runs the relaxation loop to completion from start node `si`: repeatedly
/// finalizes the cheapest unfinalized node and relaxes its outgoing edges,
/// until every registered node is finalized.
fn run_relaxation(g: &Graph, si: usize) -> (r: (CostLedger, PredecessorMap, ProcessedSet))
    requires
        g.wf(),
        si < g.n(),
    ensures
        relax_inv(*g, si as int, r.0, r.1, r.2),
        forall|v: int| 0 <= v < g.n() ==> r.2.spec_contains(v),
{
    let n = g.node_count();
    let mut ledger = CostLedger::new(n, si);
    let mut parents = PredecessorMap::new(n);
    let mut processed = ProcessedSet::new(n);
    loop
        invariant
            g.wf(),
            n == g.n(),
            si < n,
            relax_inv(*g, si as int, ledger, parents, processed),
        ensures
            relax_inv(*g, si as int, ledger, parents, processed),
            forall|v: int| 0 <= v < g.n() ==> processed.spec_contains(v),
        decreases g.n() - processed.order@.len(),
    {
        proof {
            lemma_order_bound(processed, g.n());
        }
        match select(g, &ledger, &processed) {
            None => {
                break ;
            },
            Some(u) => {
                proof {
                    let m = ledger.spec_cost(u as int);
                    assert forall|q: Seq<int>| g.is_path(q, si as int, u as int) implies g.path_cost(
                        q,
                    ) >= m by {
                        lemma_frontier_bound(*g, si as int, ledger, processed, m, u as int, q);
                    };
                }
                let ghost led_pre = ledger;
                let ghost par_pre = parents;
                let ghost ps_pre = processed;
                processed.mark(u);
                relax_from(g, u, &mut ledger, &mut parents, &processed);
                proof {
                    let gg = *g;
                    let sii = si as int;
                    let ui = u as int;
                    let un = g.n();
                    assert(relaxed_slot(gg, ui, led_pre, par_pre, ledger, parents, processed, sii));
                    assert(ledger.spec_cost(sii) == 0);
                    assert(parents.parents@[sii] is None);
                    // finalized nodes keep their entries, which remain lower bounds
                    assert forall|v: int, q: Seq<int>|
                        processed.spec_contains(v) && #[trigger] gg.is_path(q, sii, v) implies
                        gg.path_cost(q) >= ledger.spec_cost(v) by {
                        assert(relaxed_slot(gg, ui, led_pre, par_pre, ledger, parents, processed, v));
                        assert(ledger.spec_cost(v) == led_pre.spec_cost(v));
                        if v != ui {
                            assert(ps_pre.spec_contains(v));
                        }
                    };
                    // edges out of the enlarged finalized set are relaxed
                    assert forall|j: int|
                        gg.edge_ok(j) && processed.spec_contains((#[trigger] gg.edges@[j]).start as int)
                            && !processed.spec_contains(gg.edges@[j].end as int) implies
                        ledger.spec_cost(gg.edges@[j].end as int) <= ledger.spec_cost(
                            gg.edges@[j].start as int,
                        ) + gg.edges@[j].weight by {
                        let a = gg.edges@[j].start as int;
                        let b = gg.edges@[j].end as int;
                        assert(relaxed_slot(gg, ui, led_pre, par_pre, ledger, parents, processed, a));
                        assert(relaxed_slot(gg, ui, led_pre, par_pre, ledger, parents, processed, b));
                        assert(ledger.spec_cost(a) == led_pre.spec_cost(a));
                        assert(ledger.spec_cost(b) <= led_pre.spec_cost(b));
                        if a != ui {
                            assert(ps_pre.spec_contains(a));
                            assert(!ps_pre.spec_contains(b));
                            assert(led_pre.spec_cost(b) <= led_pre.spec_cost(a) + gg.edges@[j].weight);
                        }
                    };
                    // recorded predecessors stay finalized, earlier, and exact
                    assert forall|v: int| 0 <= v < un implies ((#[trigger] parents.parents@[v])
                        matches Some(w) ==> 0 <= w < un && processed.spec_contains(w as int)
                        && ledger.spec_cost(w as int) < INFINITE_COST && (exists|j: int|
                        gg.edge_ok(j) && (#[trigger] gg.edges@[j]).start == w && gg.edges@[j].end as int
                            == v && ledger.spec_cost(v) == ledger.spec_cost(w as int)
                            + gg.edges@[j].weight) && (processed.spec_contains(v) ==> before_in(
                        processed.order@,
                        w as int,
                        v,
                    ))) by {
                        assert(relaxed_slot(gg, ui, led_pre, par_pre, ledger, parents, processed, v));
                        if parents.parents@[v] is Some {
                            let w = parents.parents@[v]->0;
                            let wi = w as int;
                            if parents.parents@[v] == par_pre.parents@[v] && ledger.spec_cost(v)
                                == led_pre.spec_cost(v) {
                                // untouched slot: the old record still stands
                                assert(ps_pre.spec_contains(wi));
                                assert(relaxed_slot(gg, ui, led_pre, par_pre, ledger, parents, processed, wi));
                                assert(ledger.spec_cost(wi) == led_pre.spec_cost(wi));
                                let j0 = choose|j: int|
                                    gg.edge_ok(j) && (#[trigger] gg.edges@[j]).start == w
                                        && gg.edges@[j].end as int == v && led_pre.spec_cost(v)
                                        == led_pre.spec_cost(wi) + gg.edges@[j].weight;
                                assert(gg.edge_ok(j0) && gg.edges@[j0].start == w
                                    && gg.edges@[j0].end as int == v && ledger.spec_cost(v)
                                    == ledger.spec_cost(wi) + gg.edges@[j0].weight);
                                if processed.spec_contains(v) {
                                    if ps_pre.spec_contains(v) {
                                        let (k1, k2) = choose|k1: int, k2: int|
                                            0 <= k1 < k2 < ps_pre.order@.len() && (
                                            #[trigger] ps_pre.order@[k1]) as int == wi && (
                                            #[trigger] ps_pre.order@[k2]) as int == v;
                                        assert(processed.order@[k1] as int == wi);
                                        assert(processed.order@[k2] as int == v);
                                        assert(before_in(processed.order@, wi, v));
                                    } else {
                                        assert(v == ui);
                                        let k1 = choose|k: int|
                                            0 <= k < ps_pre.order@.len() && (
                                            #[trigger] ps_pre.order@[k]) as int == wi;
                                        let k2 = ps_pre.order@.len() as int;
                                        assert(processed.order@[k1] as int == wi);
                                        assert(processed.order@[k2] as int == v);
                                        assert(before_in(processed.order@, wi, v));
                                    }
                                }
                            } else {
                                // slot rewritten by this pass: `u` is the record
                                assert(w == u);
                                assert(!processed.spec_contains(v));
                                assert(relaxed_slot(gg, ui, led_pre, par_pre, ledger, parents, processed, ui));
                                assert(ledger.spec_cost(ui) == led_pre.spec_cost(ui));
                                let j0 = choose|j: int|
                                    gg.edge_ok(j) && (#[trigger] gg.edges@[j]).start as int == ui
                                        && gg.edges@[j].end as int == v && ledger.spec_cost(v)
                                        == led_pre.spec_cost(ui) + gg.edges@[j].weight;
                                assert(gg.edge_ok(j0) && gg.edges@[j0].start == w
                                    && gg.edges@[j0].end as int == v && ledger.spec_cost(v)
                                    == ledger.spec_cost(wi) + gg.edges@[j0].weight);
                            }
                        }
                    };
                    // finite entries other than the start still have a record
                    assert forall|v: int|
                        0 <= v < un && v != sii && ledger.spec_cost(v) < INFINITE_COST implies (
                    #[trigger] parents.parents@[v]) is Some by {
                        assert(relaxed_slot(gg, ui, led_pre, par_pre, ledger, parents, processed, v));
                        if ledger.spec_cost(v) == led_pre.spec_cost(v) && parents.parents@[v]
                            == par_pre.parents@[v] {
                            assert(led_pre.spec_cost(v) < INFINITE_COST);
                        }
                    };
                    assert(relax_inv(gg, sii, ledger, parents, processed));
                    lemma_order_bound(processed, g.n());
                }
            },
        }
    }
    (ledger, parents, processed)
}

/// Walks the predecessor map back from `ti`, then returns the recorded
/// path from `si` to `ti` with its total cost, which is `ti`'s ledger entry.
fn reconstruct(
    g: &Graph,
    si: usize,
    ti: usize,
    ledger: &CostLedger,
    parents: &PredecessorMap,
    processed: &ProcessedSet,
) -> (r: PathResult)
    requires
        g.wf(),
        relax_inv(*g, si as int, *ledger, *parents, *processed),
        forall|v: int| 0 <= v < g.n() ==> processed.spec_contains(v),
        ti < g.n(),
        ledger.spec_cost(ti as int) < INFINITE_COST,
    ensures
        r.cost == ledger.spec_cost(ti as int),
        exists|p: Seq<int>|
            g.is_path(p, si as int, ti as int) && g.path_cost(p) == r.cost && r.nodes@.map_values(
                |s: String| s@,
            ) == ids_of(*g, chain_nodes(*g, p, si as int)),
{
    let mut rev: Vec<usize> = Vec::new();
    rev.push(ti);
    let mut cur: usize = ti;
    let ghost mut pe: Seq<int> = Seq::empty();
    proof {
        assert(chain_nodes(*g, pe, ti as int) =~= seq![ti as int]);
    }
    while cur != si
        invariant
            g.wf(),
            si < g.n(),
            ti < g.n(),
            relax_inv(*g, si as int, *ledger, *parents, *processed),
            forall|v: int| 0 <= v < g.n() ==> processed.spec_contains(v),
            cur < g.n(),
            ledger.spec_cost(cur as int) < INFINITE_COST,
            g.is_path(pe, cur as int, ti as int),
            g.path_cost(pe) + ledger.spec_cost(cur as int) == ledger.spec_cost(ti as int),
            rev@.len() == pe.len() + 1,
            forall|k: int|
                0 <= k < rev@.len() ==> (#[trigger] rev@[k]) as int == chain_nodes(
                    *g,
                    pe,
                    cur as int,
                )[pe.len() - k],
        decreases pos_of(processed.order@, cur as int),
    {
        let po = parents.get(cur);
        proof {
            assert(parents.parents@[cur as int] is Some);
        }
        let p = po.unwrap();
        let ghost pe_old = pe;
        let ghost cur_old = cur as int;
        proof {
            let vi = cur as int;
            let wi = p as int;
            assert(0 <= wi < g.n() && processed.spec_contains(wi) && ledger.spec_cost(wi)
                < INFINITE_COST);
            let j0 = choose|j: int|
                g.edge_ok(j) && (#[trigger] g.edges@[j]).start == p && g.edges@[j].end as int == vi
                    && ledger.spec_cost(vi) == ledger.spec_cost(wi) + g.edges@[j].weight;
            let pe2 = seq![j0] + pe;
            lemma_path_cost_prepend(*g, j0, pe);
            assert forall|m: int| 0 <= m < pe2.len() implies g.edge_ok(#[trigger] pe2[m]) by {
                if m > 0 {
                    assert(pe2[m] == pe[m - 1]);
                }
            };
            assert forall|m: int|
                0 < m < pe2.len() implies g.edges@[pe2[m - 1]].end == g.edges@[
                #[trigger] pe2[m]].start by {
                assert(pe2[m] == pe[m - 1]);
                if m == 1 {
                    assert(g.edges@[pe2[0]].end as int == vi);
                    assert(g.edges@[pe[0]].start as int == vi);
                } else {
                    assert(pe2[m - 1] == pe[m - 2]);
                }
            };
            if pe.len() == 0 {
                assert(vi == ti as int);
                assert(g.edges@[pe2[0]].end as int == ti as int);
            } else {
                assert(pe2[pe2.len() - 1] == pe[pe.len() - 1]);
            }
            assert(g.is_path(pe2, wi, ti as int));
            lemma_before_pos(*processed, wi, vi);
            pe = pe2;
        }
        rev.push(p);
        cur = p;
        proof {
            let chain2 = chain_nodes(*g, pe, cur as int);
            let chain1 = chain_nodes(*g, pe_old, cur_old);
            assert(chain2 =~= seq![cur as int] + chain1);
            assert forall|k: int| 0 <= k < rev@.len() implies (#[trigger] rev@[k]) as int
                == chain2[pe.len() - k] by {
                if k < rev@.len() - 1 {
                    assert(rev@[k] as int == chain1[pe_old.len() - k]);
                    assert(chain2[pe.len() - k] == chain1[pe_old.len() - k]);
                } else {
                    assert(chain2[0] == cur as int);
                }
            };
        }
    }
    let end_cost = ledger.cost_of(ti);
    let ghost chain = chain_nodes(*g, pe, si as int);
    proof {
        assert(g.path_cost(pe) == ledger.spec_cost(ti as int));
        assert forall|k: int| 0 <= k < rev@.len() implies 0 <= (#[trigger] rev@[k]) < g.n() by {
            assert(rev@[k] as int == chain[pe.len() - k]);
            if pe.len() - k == 0 {
            } else {
                let m = pe.len() - k;
                assert(chain[m] == g.edges@[pe[m - 1]].end as int);
                assert(g.edge_ok(pe[m - 1]));
            }
        };
    }
    let total = rev.len();
    let mut out: Vec<String> = Vec::new();
    let mut k = total;
    while k > 0
        invariant
            g.wf(),
            total == rev@.len(),
            rev@.len() == pe.len() + 1,
            k <= total,
            forall|m: int| 0 <= m < rev@.len() ==> 0 <= (#[trigger] rev@[m]) < g.n(),
            forall|m: int|
                0 <= m < rev@.len() ==> (#[trigger] rev@[m]) as int == chain[pe.len() - m],
            chain.len() == rev@.len(),
            out@.len() == total - k,
            forall|m: int|
                0 <= m < out@.len() ==> (#[trigger] out@[m])@ == g.nodes@[chain[m]].id@,
        decreases k,
    {
        k = k - 1;
        let idx = rev[k];
        out.push(g.nodes[idx].id.clone());
        proof {
            assert(out@[out@.len() - 1]@ == g.nodes@[chain[total - 1 - k]].id@);
        }
    }
    proof {
        assert(out@.map_values(|s: String| s@) =~= ids_of(*g, chain));
    }
    PathResult { nodes: out, cost: end_cost }
}

/// Computes one lowest-cost path from `start` to `end` over the graph.
///
/// On success the returned path is a real edge chain of the graph from
/// `start` to `end`, its stated cost is exact, and no path of the graph
/// between the two nodes costs less. `NoPathFound` is returned exactly when
/// every such path (if any) would cost at least the sentinel, in particular
/// whenever `end` is unreachable from `start`.
pub fn shortest_path(g: &Graph, start: &Node, end: &Node) -> (r: Result<PathResult, GraphError>)
    requires
        g.wf(),
    ensures
        (r == Err::<PathResult, GraphError>(GraphError::UnknownStartOrEnd)) <==> !(g.has_node_id(
            start.id@,
        ) && g.has_node_id(end.id@)),
        r matches Ok(res) ==> res.cost < INFINITE_COST && (exists|p: Seq<int>|
            g.is_path(p, g.id_index(start.id@), g.id_index(end.id@)) && g.path_cost(p) == res.cost
                && res.nodes@.map_values(|s: String| s@) == ids_of(
                *g,
                chain_nodes(*g, p, g.id_index(start.id@)),
            )) && (forall|q: Seq<int>|
            g.is_path(q, g.id_index(start.id@), g.id_index(end.id@)) ==> g.path_cost(q)
                >= res.cost),
        r matches Err(e) ==> e == GraphError::UnknownStartOrEnd || e == GraphError::NoPathFound,
        (r == Err::<PathResult, GraphError>(GraphError::NoPathFound)) ==> forall|q: Seq<int>|
            g.is_path(q, g.id_index(start.id@), g.id_index(end.id@)) ==> g.path_cost(q)
                >= INFINITE_COST,
{
    let si = match g.index_of(&start.id) {
        Some(i) => i,
        None => {
            return Err(GraphError::UnknownStartOrEnd);
        },
    };
    let ti = match g.index_of(&end.id) {
        Some(i) => i,
        None => {
            return Err(GraphError::UnknownStartOrEnd);
        },
    };
    proof {
        let i0 = g.id_index(start.id@);
        assert(g.has_node_id(start.id@));
        assert(0 <= i0 < g.n() && g.nodes@[i0].id@ == start.id@);
        if i0 < si as int {
            assert(g.nodes@[i0].id@ != g.nodes@[si as int].id@);
        } else if (si as int) < i0 {
            assert(g.nodes@[si as int].id@ != g.nodes@[i0].id@);
        }
        assert(i0 == si as int);
        let i1 = g.id_index(end.id@);
        assert(g.has_node_id(end.id@));
        assert(0 <= i1 < g.n() && g.nodes@[i1].id@ == end.id@);
        if i1 < ti as int {
            assert(g.nodes@[i1].id@ != g.nodes@[ti as int].id@);
        } else if (ti as int) < i1 {
            assert(g.nodes@[ti as int].id@ != g.nodes@[i1].id@);
        }
        assert(i1 == ti as int);
    }
    let (ledger, parents, processed) = run_relaxation(g, si);
    let end_cost = ledger.cost_of(ti);
    if end_cost == INFINITE_COST {
        proof {
            assert(processed.spec_contains(ti as int));
            assert forall|q: Seq<int>| g.is_path(q, si as int, ti as int) implies g.path_cost(q)
                >= INFINITE_COST by {
                assert(g.path_cost(q) >= ledger.spec_cost(ti as int));
            };
        }
        return Err(GraphError::NoPathFound);
    }
    let res = reconstruct(g, si, ti, &ledger, &parents, &processed);
    proof {
        assert(processed.spec_contains(ti as int));
        assert forall|q: Seq<int>| g.is_path(q, si as int, ti as int) implies g.path_cost(q)
            >= res.cost by {
            assert(g.path_cost(q) >= ledger.spec_cost(ti as int));
        };
    }
    Ok(res)
}

/// The cost of a shortest path between two nodes is the same however it was
/// found: any two results that are each a path of least cost between the
/// same pair of nodes agree on that cost. Repeating a query on an
/// unmodified graph therefore reports the same cost.
pub proof fn lemma_shortest_cost_unique(
    g: Graph,
    si: int,
    ti: int,
    p1: Seq<int>,
    c1: u64,
    p2: Seq<int>,
    c2: u64,
)
    requires
        g.is_path(p1, si, ti),
        g.path_cost(p1) == c1,
        forall|q: Seq<int>| g.is_path(q, si, ti) ==> g.path_cost(q) >= c1,
        g.is_path(p2, si, ti),
        g.path_cost(p2) == c2,
        forall|q: Seq<int>| g.is_path(q, si, ti) ==> g.path_cost(q) >= c2,
    ensures
        c1 == c2,
{
    assert(g.path_cost(p1) >= c2);
    assert(g.path_cost(p2) >= c1);
}

/// The rendering of a list of identifiers: each one followed by an arrow
/// separator.
pub open spec fn render_ids(ids: Seq<Seq<char>>) -> Seq<char>
    decreases ids.len(),
{
    if ids.len() == 0 {
        Seq::empty()
    } else {
        ids[0] + " -> "@ + render_ids(ids.drop_first())
    }
}

/// Rendering a list extended by one identifier appends that identifier and
/// a separator to the rendering of the list.
proof fn lemma_render_push(ids: Seq<Seq<char>>, x: Seq<char>)
    ensures
        render_ids(ids.push(x)) == render_ids(ids) + x + " -> "@,
    decreases ids.len(),
{
    if ids.len() == 0 {
        let single = ids.push(x);
        assert(single.drop_first() =~= Seq::<Seq<char>>::empty());
        assert(single[0] == x);
        assert(render_ids(single) == single[0] + " -> "@ + render_ids(single.drop_first()));
        assert(render_ids(Seq::<Seq<char>>::empty()) == Seq::<char>::empty());
        assert(render_ids(ids) == Seq::<char>::empty());
        assert(render_ids(single) =~= render_ids(ids) + x + " -> "@);
    } else {
        assert(ids.push(x).drop_first() =~= ids.drop_first().push(x));
        assert(ids.push(x)[0] == ids[0]);
        lemma_render_push(ids.drop_first(), x);
        assert(render_ids(ids.push(x)) =~= render_ids(ids) + x + " -> "@);
    }
}

/// Relies on std's `String::push_str`: appends the slice's characters to
/// the string, changing nothing else.
#[verifier::external_body]
fn push_str(s: &mut String, t: &str)
    ensures
        final(s)@ == old(s)@ + t@,
{
    s.push_str(t);
}

impl PathResult {
    /// The path as one line of text: every node identifier followed by an
    /// arrow separator.
    pub fn render(&self) -> (r: String)
        ensures
            r@ == render_ids(self.nodes@.map_values(|s: String| s@)),
    {
        let mut r = String::new();
        let count = self.nodes.len();
        for i in 0..count
            invariant
                count == self.nodes@.len(),
                r@ == render_ids(self.nodes@.take(i as int).map_values(|s: String| s@)),
        {
            let ghost before = self.nodes@.take(i as int).map_values(|s: String| s@);
            push_str(&mut r, self.nodes[i].as_str());
            push_str(&mut r, " -> ");
            proof {
                assert(self.nodes@.take(i + 1).map_values(|s: String| s@) =~= before.push(
                    self.nodes@[i as int]@,
                ));
                lemma_render_push(before, self.nodes@[i as int]@);
            }
        }
        proof {
            assert(self.nodes@.take(count as int) =~= self.nodes@);
        }
        r
    }
}

} // verus!
