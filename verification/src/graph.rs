//! The graph store: node and edge registries plus adjacency queries.

use vstd::prelude::*;

verus! {

/// Error cases reported by the graph store and the shortest-path engine.
#[derive(Clone, Copy, Debug, PartialEq, Eq)]
pub enum GraphError {
    /// A node or edge was registered under an identifier that already exists.
    DuplicateIdentifier,
    /// An edge names an endpoint identifier that is not a registered node.
    DanglingEndpoint,
    /// A path query names a start or end node absent from the graph.
    UnknownStartOrEnd,
    /// A weight lookup between two nodes that no edge connects.
    NoSuchEdge,
    /// The end node is not reachable from the start node.
    NoPathFound,
}

/// A vertex: an opaque identity with no other payload.
#[derive(Clone, Debug)]
pub struct Node {
    pub id: String,
}

/// A directed, weighted relation between two node identities.
///
/// The edge's own identifier only keys it in the registry; it carries no
/// meaning in the algorithm. Weights are non-negative by construction (`u64`).
#[derive(Clone, Debug)]
pub struct Edge {
    pub id: String,
    pub start_id: String,
    pub end_id: String,
    pub weight: u64,
}

/// Relies on `uuid::Uuid::new_v4` and its `Display` impl: a random
/// version-4 UUID rendered in hyphenated form, which is always 36 characters.
/// The value is random, so nothing beyond its length is promised.
#[verifier::external_body]
fn fresh_id() -> (r: String)
    ensures
        r@.len() == 36,
{
    uuid::Uuid::new_v4().to_string()
}

impl Node {
    /// Makes a node under a caller-chosen identifier.
    pub fn new_with_id(id: String) -> (n: Node)
        ensures
            n.id@ == id@,
    {
        Node { id }
    }

    /// Makes a node under a freshly generated identifier.
    pub fn new() -> (n: Node)
        ensures
            n.id@.len() == 36,
    {
        Node { id: fresh_id() }
    }
}

impl Edge {
    /// Makes an edge from `start_node` to `end_node` under a freshly
    /// generated identifier.
    pub fn new(weight: u64, start_node: &Node, end_node: &Node) -> (e: Edge)
        ensures
            e.weight == weight,
            e.start_id@ == start_node.id@,
            e.end_id@ == end_node.id@,
            e.id@.len() == 36,
    {
        Edge {
            id: fresh_id(),
            weight,
            start_id: start_node.id.clone(),
            end_id: end_node.id.clone(),
        }
    }
}

/// An edge as the graph stores it: endpoint identifiers resolved to the
/// positions of the endpoint nodes in the registration order.
#[derive(Clone, Debug)]
pub struct EdgeRec {
    pub id: String,
    pub start: usize,
    pub end: usize,
    pub weight: u64,
}

/// The graph store: the node registry and the edge registry, both kept in
/// registration order. That order is the deterministic tie-break for the
/// frontier selection and for parallel-edge resolution.
#[derive(Debug)]
pub struct Graph {
    pub nodes: Vec<Node>,
    pub edges: Vec<EdgeRec>,
}

impl Graph {
    /// How many nodes are registered.
    pub open spec fn n(self) -> int {
        self.nodes@.len() as int
    }

    /// Whether some registered node carries the identifier `id`.
    pub open spec fn has_node_id(self, id: Seq<char>) -> bool {
        exists|i: int| 0 <= i < self.n() && (#[trigger] self.nodes@[i].id@) == id
    }

    /// The position of the node that carries `id`; meaningful only when
    /// `has_node_id(id)` holds (then, under `wf`, it is unique).
    pub open spec fn id_index(self, id: Seq<char>) -> int {
        choose|i: int| 0 <= i < self.n() && (#[trigger] self.nodes@[i].id@) == id
    }

    /// Whether `j` indexes a stored edge.
    pub open spec fn edge_ok(self, j: int) -> bool {
        0 <= j < self.edges@.len()
    }

    /// Whether some stored edge carries the identifier `id`.
    pub open spec fn has_edge_id(self, id: Seq<char>) -> bool {
        exists|j: int| self.edge_ok(j) && (#[trigger] self.edges@[j].id@) == id
    }

    /// Referential integrity and identifier uniqueness: every edge's
    /// endpoints index registered nodes, and no identifier repeats.
    pub open spec fn wf(self) -> bool {
        &&& forall|i: int, k: int|
            0 <= i < k < self.n() ==> (#[trigger] self.nodes@[i].id@) != (
            #[trigger] self.nodes@[k].id@)
        &&& forall|j: int, k: int|
            0 <= j < k < self.edges@.len() ==> (#[trigger] self.edges@[j].id@) != (
            #[trigger] self.edges@[k].id@)
        &&& forall|j: int|
            self.edge_ok(j) ==> (#[trigger] self.edges@[j]).start < self.n()
                && self.edges@[j].end < self.n()
    }

    /// Makes an empty graph.
    pub fn new() -> (g: Graph)
        ensures
            g.wf(),
            g.nodes@.len() == 0,
            g.edges@.len() == 0,
    {
        Graph { nodes: Vec::new(), edges: Vec::new() }
    }

    /// How many nodes are registered.
    pub fn node_count(&self) -> (r: usize)
        ensures
            r == self.n(),
    {
        self.nodes.len()
    }

    /// The node at position `i` in registration order.
    pub fn node_at(&self, i: usize) -> (r: &Node)
        requires
            0 <= i < self.n(),
        ensures
            *r == self.nodes@[i as int],
    {
        &self.nodes[i]
    }

    /// The registration-order position of the node carrying `id`, if any.
    pub fn index_of(&self, id: &String) -> (r: Option<usize>)
        ensures
            match r {
                Some(i) => 0 <= i < self.n() && self.nodes@[i as int].id@ == id@,
                None => !self.has_node_id(id@),
            },
    {
        let n = self.nodes.len();
        for i in 0..n
            invariant
                n == self.n(),
                forall|k: int| 0 <= k < i ==> (#[trigger] self.nodes@[k].id@) != id@,
        {
            if self.nodes[i].id == *id {
                return Some(i);
            }
        }
        None
    }

    /// Registers a node. Fails with `DuplicateIdentifier` if a node with the
    /// same identifier is already registered; the graph is then unchanged.
    pub fn register_node(&mut self, node: &Node) -> (r: Result<(), GraphError>)
        requires
            old(self).wf(),
        ensures
            final(self).wf(),
            final(self).edges@ == old(self).edges@,
            match r {
                Ok(()) => !old(self).has_node_id(node.id@) && final(self).nodes@ == old(
                    self,
                ).nodes@.push(*node),
                Err(e) => e == GraphError::DuplicateIdentifier && old(self).has_node_id(node.id@)
                    && final(self).nodes@ == old(self).nodes@,
            },
    {
        match self.index_of(&node.id) {
            Some(_) => Err(GraphError::DuplicateIdentifier),
            None => {
                self.nodes.push(Node { id: node.id.clone() });
                Ok(())
            },
        }
    }

    /// Registers nodes in order. Stops at the first duplicate identifier,
    /// leaving the nodes before it registered.
    pub fn register_nodes(&mut self, nodes: &Vec<Node>) -> (r: Result<(), GraphError>)
        requires
            old(self).wf(),
        ensures
            final(self).wf(),
            final(self).edges@ == old(self).edges@,
            match r {
                Ok(()) => final(self).nodes@ == old(self).nodes@ + nodes@,
                Err(e) => e == GraphError::DuplicateIdentifier && exists|k: int|
                    0 <= k < nodes@.len() && final(self).nodes@ == old(self).nodes@ + nodes@.take(k)
                        && final(self).has_node_id(nodes@[k].id@),
            },
    {
        let count = nodes.len();
        for k in 0..count
            invariant
                count == nodes@.len(),
                self.wf(),
                self.edges@ == old(self).edges@,
                self.nodes@ == old(self).nodes@ + nodes@.take(k as int),
        {
            let ghost prev = self.nodes@;
            match self.register_node(&nodes[k]) {
                Ok(()) => {
                    proof {
                        assert(nodes@.take(k + 1) =~= nodes@.take(k as int).push(nodes@[k as int]));
                        assert(self.nodes@ =~= old(self).nodes@ + nodes@.take(k + 1));
                    }
                },
                Err(e) => {
                    return Err(e);
                },
            }
        }
        proof {
            assert(nodes@.take(count as int) =~= nodes@);
        }
        Ok(())
    }

    /// Whether some stored edge carries the identifier `id`.
    fn edge_id_exists(&self, id: &String) -> (r: bool)
        ensures
            r == self.has_edge_id(id@),
    {
        let count = self.edges.len();
        for j in 0..count
            invariant
                count == self.edges@.len(),
                forall|k: int| 0 <= k < j ==> (#[trigger] self.edges@[k].id@) != id@,
        {
            if self.edges[j].id == *id {
                return true;
            }
        }
        false
    }

    /// Registers an edge, resolving its endpoint identifiers against the node
    /// registry. Fails with `DuplicateIdentifier` if an edge with the same
    /// identifier exists, and with `DanglingEndpoint` if either endpoint is
    /// not a registered node; the graph is then unchanged.
    pub fn register_edge(&mut self, edge: &Edge) -> (r: Result<(), GraphError>)
        requires
            old(self).wf(),
        ensures
            final(self).wf(),
            final(self).nodes@ == old(self).nodes@,
            match r {
                Ok(()) => !old(self).has_edge_id(edge.id@) && old(self).has_node_id(edge.start_id@)
                    && old(self).has_node_id(edge.end_id@) && final(self).edges@ == old(
                    self,
                ).edges@.push(
                    (EdgeRec {
                        id: edge.id,
                        start: old(self).id_index(edge.start_id@) as usize,
                        end: old(self).id_index(edge.end_id@) as usize,
                        weight: edge.weight,
                    }),
                ),
                Err(e) => final(self).edges@ == old(self).edges@ && (if old(self).has_edge_id(
                    edge.id@,
                ) {
                    e == GraphError::DuplicateIdentifier
                } else {
                    e == GraphError::DanglingEndpoint && (!old(self).has_node_id(edge.start_id@)
                        || !old(self).has_node_id(edge.end_id@))
                }),
            },
    {
        if self.edge_id_exists(&edge.id) {
            return Err(GraphError::DuplicateIdentifier);
        }
        let si = match self.index_of(&edge.start_id) {
            Some(i) => i,
            None => {
                return Err(GraphError::DanglingEndpoint);
            },
        };
        let ti = match self.index_of(&edge.end_id) {
            Some(i) => i,
            None => {
                return Err(GraphError::DanglingEndpoint);
            },
        };
        proof {
            assert(si as int == self.id_index(edge.start_id@));
            assert(ti as int == self.id_index(edge.end_id@));
        }
        self.edges.push(
            EdgeRec { id: edge.id.clone(), start: si, end: ti, weight: edge.weight },
        );
        Ok(())
    }

    /// Whether the stored edge at position `i` records `e`: the same
    /// identifier and weight, with the endpoints resolved to the registered
    /// nodes that carry `e`'s endpoint identifiers.
    pub open spec fn edge_recorded_at(self, i: int, e: Edge) -> bool {
        &&& self.edge_ok(i)
        &&& self.edges@[i].id@ == e.id@
        &&& self.edges@[i].weight == e.weight
        &&& self.edges@[i].start < self.n()
        &&& self.nodes@[self.edges@[i].start as int].id@ == e.start_id@
        &&& self.edges@[i].end < self.n()
        &&& self.nodes@[self.edges@[i].end as int].id@ == e.end_id@
    }

    /// Registers edges in order. Stops at the first failure, leaving exactly
    /// the edges before it registered.
    pub fn register_edges(&mut self, edges: &Vec<Edge>) -> (r: Result<(), GraphError>)
        requires
            old(self).wf(),
        ensures
            final(self).wf(),
            final(self).nodes@ == old(self).nodes@,
            forall|i: int|
                0 <= i < old(self).edges@.len() ==> (#[trigger] final(self).edges@[i]) == old(
                    self,
                ).edges@[i],
            r matches Ok(()) ==> final(self).edges@.len() == old(self).edges@.len() + edges@.len()
                && (forall|k: int|
                0 <= k < edges@.len() ==> final(self).edge_recorded_at(
                    old(self).edges@.len() + k,
                    #[trigger] edges@[k],
                )),
            r matches Err(e) ==> exists|k: int|
                0 <= k < edges@.len() && final(self).edges@.len() == old(self).edges@.len() + k
                    && (forall|m: int|
                    0 <= m < k ==> final(self).edge_recorded_at(
                        old(self).edges@.len() + m,
                        #[trigger] edges@[m],
                    )) && (if final(self).has_edge_id((#[trigger] edges@[k]).id@) {
                    e == GraphError::DuplicateIdentifier
                } else {
                    e == GraphError::DanglingEndpoint && (!final(self).has_node_id(
                        edges@[k].start_id@,
                    ) || !final(self).has_node_id(edges@[k].end_id@))
                }),
    {
        let count = edges.len();
        let ghost base = old(self).edges@.len() as int;
        for k in 0..count
            invariant
                count == edges@.len(),
                self.wf(),
                self.nodes@ == old(self).nodes@,
                base == old(self).edges@.len(),
                self.edges@.len() == base + k,
                forall|i: int|
                    0 <= i < base ==> (#[trigger] self.edges@[i]) == old(self).edges@[i],
                forall|m: int|
                    0 <= m < k ==> self.edge_recorded_at(base + m, #[trigger] edges@[m]),
        {
            let ghost at_call = *self;
            match self.register_edge(&edges[k]) {
                Ok(()) => {
                    proof {
                        let e = edges@[k as int];
                        let si = at_call.id_index(e.start_id@);
                        let ti = at_call.id_index(e.end_id@);
                        assert(at_call.has_node_id(e.start_id@));
                        assert(0 <= si < at_call.n() && at_call.nodes@[si].id@ == e.start_id@);
                        assert(at_call.has_node_id(e.end_id@));
                        assert(0 <= ti < at_call.n() && at_call.nodes@[ti].id@ == e.end_id@);
                        assert(at_call.nodes@.len() == at_call.nodes.len());
                        assert(at_call.n() <= usize::MAX);
                        assert(self.edge_recorded_at(base + k, e));
                        assert forall|m: int|
                            0 <= m < k + 1 implies self.edge_recorded_at(
                            base + m,
                            #[trigger] edges@[m],
                        ) by {
                            if m < k {
                                assert(at_call.edge_recorded_at(base + m, edges@[m]));
                                assert(self.edges@[base + m] == at_call.edges@[base + m]);
                            }
                        };
                    }
                },
                Err(e) => {
                    proof {
                        assert(self.edges@.len() == base + k);
                    }
                    return Err(e);
                },
            }
        }
        Ok(())
    }

    /// Whether stored edge `e` leaves the node whose identifier is `start_id`.
    pub open spec fn starts_at(self, e: EdgeRec, start_id: Seq<char>) -> bool {
        e.start < self.n() && self.nodes@[e.start as int].id@ == start_id
    }

    /// The stored edges leaving the node whose identifier is `start_id`, in
    /// registration order.
    pub open spec fn out_edges(self, start_id: Seq<char>) -> Seq<EdgeRec> {
        self.edges@.filter(|e: EdgeRec| self.starts_at(e, start_id))
    }

    /// Every node that ends an edge starting at `node`, one entry per such
    /// edge, in edge registration order. Empty if `node` has no outgoing
    /// edges or is not registered.
    pub fn neighbors_of(&self, node: &Node) -> (r: Vec<Node>)
        requires
            self.wf(),
        ensures
            r@ == self.out_edges(node.id@).map_values(|e: EdgeRec| self.nodes@[e.end as int]),
    {
        let mut r: Vec<Node> = Vec::new();
        let count = self.edges.len();
        for j in 0..count
            invariant
                self.wf(),
                count == self.edges@.len(),
                r@ == self.edges@.take(j as int).filter(
                    |e: EdgeRec| self.starts_at(e, node.id@),
                ).map_values(|e: EdgeRec| self.nodes@[e.end as int]),
        {
            let ghost pred = |e: EdgeRec| self.starts_at(e, node.id@);
            let ghost f = |e: EdgeRec| self.nodes@[e.end as int];
            proof {
                lemma_filter_push(self.edges@.take(j as int), self.edges@[j as int], pred);
                assert(self.edges@.take(j + 1) =~= self.edges@.take(j as int).push(
                    self.edges@[j as int],
                ));
            }
            let e = &self.edges[j];
            if self.nodes[e.start].id == node.id {
                r.push(Node { id: self.nodes[e.end].id.clone() });
                proof {
                    let fs = self.edges@.take(j as int).filter(pred);
                    assert(fs.push(self.edges@[j as int]).map_values(f) =~= fs.map_values(f).push(
                        f(self.edges@[j as int]),
                    ));
                }
            }
        }
        proof {
            assert(self.edges@.take(count as int) =~= self.edges@);
        }
        r
    }

    /// Whether stored edge `j` runs from the node with identifier `aid` to
    /// the node with identifier `bid`.
    pub open spec fn connects(self, j: int, aid: Seq<char>, bid: Seq<char>) -> bool {
        self.edge_ok(j) && self.edges@[j].start < self.n() && self.edges@[j].end < self.n()
            && self.nodes@[self.edges@[j].start as int].id@ == aid
            && self.nodes@[self.edges@[j].end as int].id@ == bid
    }

    /// The weight of an edge from `a` to `b`. Among parallel edges the
    /// minimum weight wins. Fails with `NoSuchEdge` if no edge connects the
    /// ordered pair.
    pub fn weight_between(&self, a: &Node, b: &Node) -> (r: Result<u64, GraphError>)
        requires
            self.wf(),
        ensures
            match r {
                Ok(w) => (exists|j: int|
                    self.connects(j, a.id@, b.id@) && (#[trigger] self.edges@[j].weight) == w)
                    && forall|j: int|
                    self.connects(j, a.id@, b.id@) ==> w <= (#[trigger] self.edges@[j].weight),
                Err(e) => e == GraphError::NoSuchEdge && !exists|j: int|
                    self.connects(j, a.id@, b.id@),
            },
    {
        let mut best: Option<u64> = None;
        let count = self.edges.len();
        for j in 0..count
            invariant
                self.wf(),
                count == self.edges@.len(),
                match best {
                    Some(w) => (exists|k: int|
                        0 <= k < j && self.connects(k, a.id@, b.id@) && (
                        #[trigger] self.edges@[k].weight) == w) && forall|k: int|
                        0 <= k < j && self.connects(k, a.id@, b.id@) ==> w <= (
                        #[trigger] self.edges@[k].weight),
                    None => forall|k: int| 0 <= k < j ==> !self.connects(k, a.id@, b.id@),
                },
        {
            let e = &self.edges[j];
            if self.nodes[e.start].id == a.id && self.nodes[e.end].id == b.id {
                match best {
                    Some(w) => {
                        if e.weight < w {
                            best = Some(e.weight);
                        }
                    },
                    None => {
                        best = Some(e.weight);
                    },
                }
            }
        }
        match best {
            Some(w) => Ok(w),
            None => Err(GraphError::NoSuchEdge),
        }
    }
}

impl Graph {
    /// Whether `p`, a sequence of edge indices, is a chain of stored edges
    /// in which each edge starts at the node where the previous one ends.
    pub open spec fn is_chain(self, p: Seq<int>) -> bool {
        &&& forall|k: int| 0 <= k < p.len() ==> self.edge_ok(#[trigger] p[k])
        &&& forall|k: int|
            0 < k < p.len() ==> self.edges@[p[k - 1]].end == self.edges@[#[trigger] p[k]].start
    }

    /// Whether edge chain `p` leads from node `s` to node `t`. The empty
    /// chain leads from every node to itself.
    pub open spec fn is_path(self, p: Seq<int>, s: int, t: int) -> bool {
        &&& self.is_chain(p)
        &&& p.len() == 0 ==> s == t
        &&& p.len() > 0 ==> self.edges@[p[0]].start == s && self.edges@[p[p.len() - 1]].end == t
    }

    /// The total weight of edge chain `p`.
    pub open spec fn path_cost(self, p: Seq<int>) -> nat
        decreases p.len(),
    {
        if p.len() == 0 {
            0
        } else {
            (self.edges@[p[0]].weight + self.path_cost(p.drop_first())) as nat
        }
    }
}

/// The cost of a chain extended at the back is the cost of the chain plus
/// the weight of the appended edge.
pub proof fn lemma_path_cost_push(g: Graph, p: Seq<int>, j: int)
    ensures
        g.path_cost(p.push(j)) == g.path_cost(p) + g.edges@[j].weight,
    decreases p.len(),
{
    if p.len() == 0 {
        assert(p.push(j).drop_first() =~= Seq::<int>::empty());
        assert(p.push(j)[0] == j);
        assert(g.path_cost(p.push(j)) == (g.edges@[j].weight + g.path_cost(
            p.push(j).drop_first(),
        )) as nat);
        assert(g.path_cost(Seq::<int>::empty()) == 0);
        assert(g.path_cost(p) == 0);
    } else {
        assert(p.push(j).drop_first() =~= p.drop_first().push(j));
        assert(p.push(j)[0] == p[0]);
        lemma_path_cost_push(g, p.drop_first(), j);
        assert(g.path_cost(p.push(j)) == g.edges@[p[0]].weight + g.path_cost(
            p.drop_first().push(j),
        ));
    }
}

/// The cost of a chain extended at the front is the weight of the prepended
/// edge plus the cost of the chain.
pub proof fn lemma_path_cost_prepend(g: Graph, j: int, p: Seq<int>)
    ensures
        g.path_cost(seq![j] + p) == g.edges@[j].weight + g.path_cost(p),
{
    assert((seq![j] + p).drop_first() =~= p);
    assert((seq![j] + p)[0] == j);
}

/// Dropping the last edge of a non-empty path from `s` to `t` leaves a path
/// from `s` to the start node of the dropped edge.
pub proof fn lemma_path_drop_last(g: Graph, p: Seq<int>, s: int, t: int)
    requires
        g.is_path(p, s, t),
        p.len() > 0,
    ensures
        g.is_path(p.drop_last(), s, g.edges@[p[p.len() - 1]].start as int),
{
    let q = p.drop_last();
    assert forall|k: int| 0 <= k < q.len() implies g.edge_ok(#[trigger] q[k]) by {
        assert(q[k] == p[k]);
    };
    assert forall|k: int|
        0 < k < q.len() implies g.edges@[q[k - 1]].end == g.edges@[#[trigger] q[k]].start by {
        assert(q[k] == p[k] && q[k - 1] == p[k - 1]);
    };
    if q.len() > 0 {
        assert(q[0] == p[0]);
        assert(g.edges@[p[(p.len() - 1) - 1]].end == g.edges@[p[p.len() - 1]].start);
    }
}

/// Filtering a sequence extended by one element keeps the old filtered
/// sequence and appends the element exactly when it satisfies the predicate.
proof fn lemma_filter_push<A>(s: Seq<A>, x: A, pred: spec_fn(A) -> bool)
    ensures
        pred(x) ==> s.push(x).filter(pred) == s.filter(pred).push(x),
        !pred(x) ==> s.push(x).filter(pred) == s.filter(pred),
{
    reveal(Seq::filter);
    assert(s.push(x).drop_last() =~= s);
    assert(s.push(x).last() == x);
}

} // verus!
