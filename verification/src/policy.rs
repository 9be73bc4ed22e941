//! The graph policy pipeline: rollout throttling and dead-end pruning.
//!
//! An update graph is a directed graph of release nodes and update edges,
//! each carrying an optional rollout threshold on the wariness scale. The
//! pipeline first hides every node and edge whose threshold exceeds the
//! client's wariness, then repeatedly removes nodes left with no outgoing
//! edge (dead ends) together with their incident edges, until none is left.
//! Both stages are pure filters: they never add, rewrite or reorder anything,
//! and the worst case is an empty graph, a valid result.

use vstd::prelude::*;

verus! {

/// A release node: an identifier, its version label, and an optional rollout
/// threshold in millionths (absent means unconditionally visible).
pub struct Node {
    pub id: u64,
    pub version: String,
    pub threshold: Option<u64>,
}

/// An update edge between two node identifiers, with an optional rollout
/// threshold in millionths (absent means unconditionally visible).
#[derive(Clone, Copy)]
pub struct Edge {
    pub from: u64,
    pub to: u64,
    pub threshold: Option<u64>,
}

/// An update graph: release nodes and the update edges between them.
pub struct UpdateGraph {
    pub nodes: Vec<Node>,
    pub edges: Vec<Edge>,
}

/// The mathematical value of a node.
#[verifier::ext_equal]
pub ghost struct NodeView {
    pub id: u64,
    pub version: Seq<char>,
    pub threshold: Option<u64>,
}

/// The mathematical value of an edge.
#[verifier::ext_equal]
pub ghost struct EdgeView {
    pub from: u64,
    pub to: u64,
    pub threshold: Option<u64>,
}

/// The mathematical value of an update graph.
#[verifier::ext_equal]
pub ghost struct GraphView {
    pub nodes: Seq<NodeView>,
    pub edges: Seq<EdgeView>,
}

impl View for Node {
    type V = NodeView;

    open spec fn view(&self) -> NodeView {
        NodeView { id: self.id, version: self.version@, threshold: self.threshold }
    }
}

impl Clone for Node {
    /// A cloned node keeps every field.
    fn clone(&self) -> (r: Self)
        ensures
            r == *self,
    {
        Node { id: self.id, version: self.version.clone(), threshold: self.threshold }
    }
}

impl View for Edge {
    type V = EdgeView;

    open spec fn view(&self) -> EdgeView {
        EdgeView { from: self.from, to: self.to, threshold: self.threshold }
    }
}

/// The views of a sequence of nodes.
pub open spec fn node_views(s: Seq<Node>) -> Seq<NodeView> {
    s.map_values(|n: Node| n@)
}

/// The views of a sequence of edges.
pub open spec fn edge_views(s: Seq<Edge>) -> Seq<EdgeView> {
    s.map_values(|e: Edge| e@)
}

impl View for UpdateGraph {
    type V = GraphView;

    open spec fn view(&self) -> GraphView {
        GraphView { nodes: node_views(self.nodes@), edges: edge_views(self.edges@) }
    }
}

/// Whether a client of the given wariness may see a node.
pub open spec fn node_passes(n: NodeView, w: u64) -> bool {
    match n.threshold {
        None => true,
        Some(t) => w >= t,
    }
}

/// Whether a client of the given wariness may see an edge on its own
/// threshold alone.
pub open spec fn edge_passes(e: EdgeView, w: u64) -> bool {
    match e.threshold {
        None => true,
        Some(t) => w >= t,
    }
}

/// Whether some node of the sequence carries the given identifier.
pub open spec fn has_node(nodes: Seq<NodeView>, id: u64) -> bool {
    exists|i: int| 0 <= i < nodes.len() && (#[trigger] nodes[i]).id == id
}

/// The throttling filter on nodes, as a function value.
pub open spec fn node_pred(w: u64) -> spec_fn(NodeView) -> bool {
    |n: NodeView| node_passes(n, w)
}

/// The throttling filter on edges: the edge's own threshold must pass and
/// both endpoints must have survived, as a function value.
pub open spec fn edge_pred(kept: Seq<NodeView>, w: u64) -> spec_fn(EdgeView) -> bool {
    |e: EdgeView| edge_passes(e, w) && has_node(kept, e.from) && has_node(kept, e.to)
}

/// Rollout throttling: remove every node and edge whose threshold exceeds
/// the client's wariness, and every edge an endpoint of which was removed.
/// A pure filter: order is kept, nothing is added or rewritten.
pub open spec fn throttle_spec(g: GraphView, w: u64) -> GraphView {
    let kept = g.nodes.filter(node_pred(w));
    GraphView { nodes: kept, edges: g.edges.filter(edge_pred(kept, w)) }
}

/// Whether `g1` is a subgraph of `g2`: every node and edge of `g1` is one of
/// `g2`.
pub open spec fn subgraph(g1: GraphView, g2: GraphView) -> bool {
    (forall|n: NodeView| #[trigger] g1.nodes.contains(n) ==> g2.nodes.contains(n)) && (forall|
        e: EdgeView,
    | #[trigger] g1.edges.contains(e) ==> g2.edges.contains(e))
}

/// A filtered sequence keeps only elements of the original that satisfy the
/// predicate.
proof fn lemma_filter_elem<A>(s: Seq<A>, pred: spec_fn(A) -> bool, x: A)
    requires
        s.filter(pred).contains(x),
    ensures
        s.contains(x),
        pred(x),
    decreases s.len(),
{
    reveal(Seq::filter);
    if s.len() == 0 {
    } else {
        let sub = s.drop_last();
        if x == s.last() && pred(s.last()) {
            assert(s[s.len() - 1] == x);
        } else {
            if pred(s.last()) {
                let out = s.filter(pred);
                let idx = choose|idx: int| 0 <= idx < out.len() && out[idx] == x;
                if idx < out.len() - 1 {
                    assert(sub.filter(pred)[idx] == x);
                    assert(sub.filter(pred).contains(x));
                } else {
                    assert(x == s.last());
                }
            }
            lemma_filter_elem(sub, pred, x);
            let j = choose|j: int| 0 <= j < sub.len() && sub[j] == x;
            assert(s[j] == x);
        }
    }
}

/// Filtering a one-longer prefix: the new element is kept exactly when it
/// satisfies the predicate.
proof fn lemma_filter_take_step<A>(s: Seq<A>, pred: spec_fn(A) -> bool, i: int)
    requires
        0 <= i < s.len(),
    ensures
        s.take(i + 1).filter(pred) == (if pred(s[i]) {
            s.take(i).filter(pred).push(s[i])
        } else {
            s.take(i).filter(pred)
        }),
{
    reveal(Seq::filter);
    assert(s.take(i + 1).drop_last() =~= s.take(i));
    assert(s.take(i + 1).last() == s[i]);
}

/// A sequence with an element that fails the predicate filters to something
/// strictly shorter.
proof fn lemma_filter_shrinks<A>(s: Seq<A>, pred: spec_fn(A) -> bool, i: int)
    requires
        0 <= i < s.len(),
        !pred(s[i]),
    ensures
        s.filter(pred).len() < s.len(),
{
    reveal(Seq::filter);
    let a = s.take(i);
    let b = s.take(i + 1);
    let c = s.skip(i + 1);
    lemma_filter_take_step(s, pred, i);
    assert(s =~= b + c);
    Seq::filter_distributes_over_add(b, c, pred);
    a.lemma_filter_len(pred);
    c.lemma_filter_len(pred);
    assert(s.filter(pred) == a.filter(pred) + c.filter(pred));
    assert(s.filter(pred).len() <= i + (s.len() - i - 1));
}

/// A sequence every element of which satisfies the predicate filters to
/// itself.
proof fn lemma_filter_all<A>(s: Seq<A>, pred: spec_fn(A) -> bool)
    requires
        forall|i: int| 0 <= i < s.len() ==> pred(#[trigger] s[i]),
    ensures
        s.filter(pred) == s,
    decreases s.len(),
{
    reveal(Seq::filter);
    if s.len() == 0 {
    } else {
        let sub = s.drop_last();
        lemma_filter_all(sub, pred);
        assert(pred(s.last()));
        assert(sub.filter(pred).push(s.last()) =~= s);
    }
}

/// Monotonicity of throttling: a higher wariness sees a superset. For any
/// graph and wariness values `w1 <= w2`, the throttled graph at `w1` is a
/// subgraph of the throttled graph at `w2`.
pub proof fn lemma_throttle_monotonic(g: GraphView, w1: u64, w2: u64)
    requires
        w1 <= w2,
    ensures
        subgraph(throttle_spec(g, w1), throttle_spec(g, w2)),
{
    let p1 = node_pred(w1);
    let p2 = node_pred(w2);
    let kept1 = g.nodes.filter(p1);
    let kept2 = g.nodes.filter(p2);
    assert forall|n: NodeView| #[trigger] kept1.contains(n) implies kept2.contains(n) by {
        lemma_filter_elem(g.nodes, p1, n);
        let i = choose|i: int| 0 <= i < g.nodes.len() && g.nodes[i] == n;
        assert(p2(g.nodes[i]));
        g.nodes.lemma_filter_contains(p2, i);
    }
    let q1 = edge_pred(kept1, w1);
    let q2 = edge_pred(kept2, w2);
    assert forall|e: EdgeView| #[trigger] g.edges.filter(q1).contains(e) implies g.edges.filter(
        q2,
    ).contains(e) by {
        lemma_filter_elem(g.edges, q1, e);
        assert(q1(e));
        let jf = choose|j: int| 0 <= j < kept1.len() && (#[trigger] kept1[j]).id == e.from;
        assert(kept1.contains(kept1[jf]));
        assert(kept2.contains(kept1[jf]));
        let jf2 = choose|j: int| 0 <= j < kept2.len() && kept2[j] == kept1[jf];
        assert(has_node(kept2, e.from));
        let jt = choose|j: int| 0 <= j < kept1.len() && (#[trigger] kept1[j]).id == e.to;
        assert(kept1.contains(kept1[jt]));
        assert(kept2.contains(kept1[jt]));
        let jt2 = choose|j: int| 0 <= j < kept2.len() && kept2[j] == kept1[jt];
        assert(has_node(kept2, e.to));
        assert(q2(e));
        let i = choose|i: int| 0 <= i < g.edges.len() && g.edges[i] == e;
        g.edges.lemma_filter_contains(q2, i);
    }
}

/// Whether a node passes the throttle, read off the carried threshold.
fn node_passes_exec(node: &Node, w: u64) -> (r: bool)
    ensures
        r == node_passes(node@, w),
{
    match node.threshold {
        None => true,
        Some(t) => w >= t,
    }
}

/// Whether an edge passes the throttle on its own threshold.
fn edge_passes_exec(edge: &Edge, w: u64) -> (r: bool)
    ensures
        r == edge_passes(edge@, w),
{
    match edge.threshold {
        None => true,
        Some(t) => w >= t,
    }
}

/// Whether some node of the vector carries the given identifier.
fn contains_node_id(nodes: &Vec<Node>, id: u64) -> (r: bool)
    ensures
        r == has_node(node_views(nodes@), id),
{
    let mut j: usize = 0;
    while j < nodes.len()
        invariant
            j <= nodes.len(),
            forall|k: int| 0 <= k < j ==> (#[trigger] node_views(nodes@)[k]).id != id,
        decreases nodes.len() - j,
    {
        if nodes[j].id == id {
            proof {
                assert(node_views(nodes@)[j as int].id == id);
            }
            return true;
        }
        j = j + 1;
    }
    false
}

/// Rollout throttling: returns the graph with every node and edge whose
/// threshold exceeds the client's wariness removed, and with every edge
/// dropped whose endpoint went away; everything else is kept in order.
pub fn throttle_rollouts(graph: UpdateGraph, wariness: u64) -> (out: UpdateGraph)
    ensures
        out@ == throttle_spec(graph@, wariness),
{
    let mut kept_nodes: Vec<Node> = Vec::new();
    let mut i: usize = 0;
    while i < graph.nodes.len()
        invariant
            i <= graph.nodes.len(),
            node_views(kept_nodes@) == node_views(graph.nodes@).take(i as int).filter(
                node_pred(wariness),
            ),
        decreases graph.nodes.len() - i,
    {
        let ghost s = node_views(graph.nodes@);
        proof {
            lemma_filter_take_step(s, node_pred(wariness), i as int);
        }
        if node_passes_exec(&graph.nodes[i], wariness) {
            let n = graph.nodes[i].clone();
            kept_nodes.push(n);
            proof {
                assert(node_views(kept_nodes@) =~= s.take(i as int).filter(
                    node_pred(wariness),
                ).push(s[i as int]));
            }
        }
        i = i + 1;
    }
    let ghost kept = node_views(graph.nodes@).filter(node_pred(wariness));
    proof {
        assert(node_views(graph.nodes@).take(graph.nodes@.len() as int) =~= node_views(
            graph.nodes@,
        ));
        assert(node_views(kept_nodes@) == kept);
    }
    let mut kept_edges: Vec<Edge> = Vec::new();
    let mut j: usize = 0;
    while j < graph.edges.len()
        invariant
            j <= graph.edges.len(),
            node_views(kept_nodes@) == kept,
            edge_views(kept_edges@) == edge_views(graph.edges@).take(j as int).filter(
                edge_pred(kept, wariness),
            ),
        decreases graph.edges.len() - j,
    {
        let ghost s = edge_views(graph.edges@);
        proof {
            lemma_filter_take_step(s, edge_pred(kept, wariness), j as int);
        }
        let e = graph.edges[j];
        let ok = edge_passes_exec(&e, wariness) && contains_node_id(&kept_nodes, e.from)
            && contains_node_id(&kept_nodes, e.to);
        proof {
            assert(e@ == s[j as int]);
            assert(ok == edge_pred(kept, wariness)(s[j as int]));
        }
        if ok {
            kept_edges.push(e);
            proof {
                assert(edge_views(kept_edges@) =~= s.take(j as int).filter(
                    edge_pred(kept, wariness),
                ).push(s[j as int]));
            }
        }
        j = j + 1;
    }
    proof {
        assert(edge_views(graph.edges@).take(graph.edges@.len() as int) =~= edge_views(
            graph.edges@,
        ));
    }
    let out = UpdateGraph { nodes: kept_nodes, edges: kept_edges };
    proof {
        assert(out@ =~= throttle_spec(graph@, wariness));
    }
    out
}

/// Whether some edge leaves the node with the given identifier.
pub open spec fn has_outgoing(edges: Seq<EdgeView>, id: u64) -> bool {
    exists|i: int| 0 <= i < edges.len() && (#[trigger] edges[i]).from == id
}

/// Whether no node of the graph is a dead end (a node with no outgoing
/// edge).
pub open spec fn no_dead_ends(g: GraphView) -> bool {
    forall|i: int| 0 <= i < g.nodes.len() ==> has_outgoing(g.edges, (#[trigger] g.nodes[i]).id)
}

/// Whether an edge touches a dead-end node of the graph at either endpoint.
pub open spec fn touches_dead(g: GraphView, e: EdgeView) -> bool {
    exists|i: int|
        0 <= i < g.nodes.len() && !has_outgoing(g.edges, (#[trigger] g.nodes[i]).id) && (
        g.nodes[i].id == e.from || g.nodes[i].id == e.to)
}

/// The pruning filter on nodes: keep those with an outgoing edge, as a
/// function value.
pub open spec fn alive_pred(g: GraphView) -> spec_fn(NodeView) -> bool {
    |n: NodeView| has_outgoing(g.edges, n.id)
}

/// The pruning filter on edges: keep those touching no dead end, as a
/// function value.
pub open spec fn edge_alive_pred(g: GraphView) -> spec_fn(EdgeView) -> bool {
    |e: EdgeView| !touches_dead(g, e)
}

/// One pruning round: remove every dead-end node, and every edge incident to
/// one.
pub open spec fn prune_step(g: GraphView) -> GraphView {
    GraphView { nodes: g.nodes.filter(alive_pred(g)), edges: g.edges.filter(edge_alive_pred(g)) }
}

/// Pruning rounds repeated until no dead end is left or the fuel runs out.
pub open spec fn prune_iter(g: GraphView, fuel: nat) -> GraphView
    decreases fuel,
{
    if fuel == 0 || no_dead_ends(g) {
        g
    } else {
        prune_iter(prune_step(g), (fuel - 1) as nat)
    }
}

/// Dead-end pruning: pruning rounds repeated to a fixed point. Each round
/// removes at least one node, so as many rounds as there are nodes always
/// reach the fixed point.
pub open spec fn prune_spec(g: GraphView) -> GraphView {
    prune_iter(g, g.nodes.len())
}

/// The whole pipeline: rollout throttling, then dead-end pruning.
pub open spec fn apply_spec(g: GraphView, w: u64) -> GraphView {
    prune_spec(throttle_spec(g, w))
}

/// A round of pruning on a graph with a dead end removes at least one node.
proof fn lemma_prune_step_shrinks(g: GraphView)
    requires
        !no_dead_ends(g),
    ensures
        prune_step(g).nodes.len() < g.nodes.len(),
{
    let i = choose|i: int|
        0 <= i < g.nodes.len() && !has_outgoing(g.edges, (#[trigger] g.nodes[i]).id);
    assert(!alive_pred(g)(g.nodes[i]));
    lemma_filter_shrinks(g.nodes, alive_pred(g), i);
}

/// With fuel at least the node count, iterated pruning reaches a graph with
/// no dead ends.
proof fn lemma_prune_iter_no_dead(g: GraphView, fuel: nat)
    requires
        fuel >= g.nodes.len(),
    ensures
        no_dead_ends(prune_iter(g, fuel)),
    decreases fuel,
{
    if fuel == 0 {
        assert(g.nodes.len() == 0);
    } else if no_dead_ends(g) {
    } else {
        lemma_prune_step_shrinks(g);
        lemma_prune_iter_no_dead(prune_step(g), (fuel - 1) as nat);
    }
}

/// Any fuel at or above the node count gives the same pruning result.
proof fn lemma_prune_iter_fuel(g: GraphView, fuel: nat)
    requires
        fuel >= g.nodes.len(),
    ensures
        prune_iter(g, fuel) == prune_spec(g),
    decreases fuel,
{
    if fuel == 0 || no_dead_ends(g) {
    } else {
        lemma_prune_step_shrinks(g);
        let h = prune_step(g);
        lemma_prune_iter_fuel(h, (fuel - 1) as nat);
        lemma_prune_iter_fuel(h, (g.nodes.len() - 1) as nat);
    }
}

/// Idempotence of dead-end pruning: pruning an already pruned graph changes
/// nothing, for every graph.
pub proof fn lemma_prune_idempotent(g: GraphView)
    ensures
        prune_spec(prune_spec(g)) == prune_spec(g),
{
    lemma_prune_iter_no_dead(g, g.nodes.len());
}

/// Whether some edge of the vector leaves the node with the given
/// identifier.
fn contains_edge_from(edges: &Vec<Edge>, id: u64) -> (r: bool)
    ensures
        r == has_outgoing(edge_views(edges@), id),
{
    let mut j: usize = 0;
    while j < edges.len()
        invariant
            j <= edges.len(),
            forall|k: int| 0 <= k < j ==> (#[trigger] edge_views(edges@)[k]).from != id,
        decreases edges.len() - j,
    {
        if edges[j].from == id {
            proof {
                assert(edge_views(edges@)[j as int].from == id);
            }
            return true;
        }
        j = j + 1;
    }
    false
}

/// Whether the edge touches a dead-end node of the graph at either endpoint.
fn touches_dead_exec(graph: &UpdateGraph, edge: &Edge) -> (r: bool)
    ensures
        r == touches_dead(graph@, edge@),
{
    let mut i: usize = 0;
    while i < graph.nodes.len()
        invariant
            i <= graph.nodes.len(),
            forall|k: int|
                0 <= k < i ==> !(!has_outgoing(graph@.edges, (#[trigger] graph@.nodes[k]).id) && (
                graph@.nodes[k].id == edge@.from || graph@.nodes[k].id == edge@.to)),
        decreases graph.nodes.len() - i,
    {
        let id = graph.nodes[i].id;
        proof {
            assert(graph@.nodes[i as int].id == id);
        }
        if id == edge.from || id == edge.to {
            if !contains_edge_from(&graph.edges, id) {
                return true;
            }
        }
        i = i + 1;
    }
    false
}

/// Dead-end pruning: repeatedly removes every node with no outgoing edge,
/// together with the edges incident to it, until no dead end is left.
pub fn filter_deadends(graph: UpdateGraph) -> (out: UpdateGraph)
    ensures
        out@ == prune_spec(graph@),
{
    let mut g = graph;
    loop
        invariant
            prune_spec(g@) == prune_spec(graph@),
        decreases g.nodes.len(),
    {
        let ghost gv = g@;
        // One pruning round: keep the nodes that still have an outgoing edge.
        let mut kept_nodes: Vec<Node> = Vec::new();
        let mut i: usize = 0;
        while i < g.nodes.len()
            invariant
                i <= g.nodes.len(),
                gv == g@,
                node_views(kept_nodes@) == node_views(g.nodes@).take(i as int).filter(
                    alive_pred(gv),
                ),
            decreases g.nodes.len() - i,
        {
            let ghost s = node_views(g.nodes@);
            proof {
                lemma_filter_take_step(s, alive_pred(gv), i as int);
            }
            if contains_edge_from(&g.edges, g.nodes[i].id) {
                let n = g.nodes[i].clone();
                kept_nodes.push(n);
                proof {
                    assert(node_views(kept_nodes@) =~= s.take(i as int).filter(
                        alive_pred(gv),
                    ).push(s[i as int]));
                }
            }
            i = i + 1;
        }
        proof {
            assert(node_views(g.nodes@).take(g.nodes@.len() as int) =~= node_views(g.nodes@));
            assert(node_views(kept_nodes@) == gv.nodes.filter(alive_pred(gv)));
        }
        if kept_nodes.len() == g.nodes.len() {
            proof {
                assert forall|k: int| 0 <= k < gv.nodes.len() implies has_outgoing(
                    gv.edges,
                    (#[trigger] gv.nodes[k]).id,
                ) by {
                    if !has_outgoing(gv.edges, gv.nodes[k].id) {
                        lemma_filter_shrinks(gv.nodes, alive_pred(gv), k);
                    }
                }
                assert(no_dead_ends(gv));
            }
            return g;
        }
        // At least one dead end: drop the edges that touch one.
        proof {
            if no_dead_ends(gv) {
                lemma_filter_all(gv.nodes, alive_pred(gv));
            }
            assert(!no_dead_ends(gv));
        }
        let mut kept_edges: Vec<Edge> = Vec::new();
        let mut j: usize = 0;
        while j < g.edges.len()
            invariant
                j <= g.edges.len(),
                gv == g@,
                edge_views(kept_edges@) == edge_views(g.edges@).take(j as int).filter(
                    edge_alive_pred(gv),
                ),
            decreases g.edges.len() - j,
        {
            let ghost s = edge_views(g.edges@);
            proof {
                lemma_filter_take_step(s, edge_alive_pred(gv), j as int);
            }
            let e = g.edges[j];
            proof {
                assert(e@ == s[j as int]);
            }
            if !touches_dead_exec(&g, &e) {
                kept_edges.push(e);
                proof {
                    assert(edge_views(kept_edges@) =~= s.take(j as int).filter(
                        edge_alive_pred(gv),
                    ).push(s[j as int]));
                }
            }
            j = j + 1;
        }
        proof {
            assert(edge_views(g.edges@).take(g.edges@.len() as int) =~= edge_views(g.edges@));
        }
        let next = UpdateGraph { nodes: kept_nodes, edges: kept_edges };
        proof {
            assert(next@ =~= prune_step(gv));
            lemma_prune_step_shrinks(gv);
            lemma_prune_iter_fuel(prune_step(gv), (gv.nodes.len() - 1) as nat);
            assert(prune_spec(gv) == prune_iter(prune_step(gv), (gv.nodes.len() - 1) as nat));
            assert(prune_spec(next@) == prune_spec(graph@));
        }
        g = next;
    }
}

/// The whole policy pipeline: rollout throttling at the client's wariness,
/// then dead-end pruning to a fixed point.
pub fn apply(graph: UpdateGraph, wariness: u64) -> (out: UpdateGraph)
    ensures
        out@ == apply_spec(graph@, wariness),
{
    let throttled = throttle_rollouts(graph, wariness);
    filter_deadends(throttled)
}

} // verus!
