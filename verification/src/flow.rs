use vstd::prelude::*;

verus! {

/// A time-expanded node has two phases: arrivals aggregate before any
/// outbound decision, departures send ships onward.
#[derive(Clone, Copy, Debug, PartialEq, Eq, Structural)]
pub enum Phase {
    Arrival,
    Departure,
}

/// A vertex of the flow network: the virtual source, the virtual sink, or one
/// planet at one turn-offset in one phase.
#[derive(Clone, Copy, Debug, PartialEq, Eq, Structural)]
pub enum NodeId {
    Source,
    Sink,
    Node { planet: i32, turn: i32, phase: Phase },
}

/// One directed edge of the flow network. `cap == i32::MAX` stands for an
/// effectively unbounded edge.
#[derive(Clone, Copy, Debug, PartialEq, Eq, Structural)]
pub struct FlowEdge {
    pub from: NodeId,
    pub to: NodeId,
    pub cap: i32,
    pub cost: i32,
}

/// One edge of a solved source-to-sink path.
#[derive(Clone, Copy, Debug, PartialEq, Eq, Structural)]
pub struct Hop {
    pub from: NodeId,
    pub to: NodeId,
}

/// One path of the solved flow's decomposition: every hop of it carries
/// `amount` units from the source to the sink.
#[derive(Clone, Debug)]
pub struct SolvedPath {
    pub amount: u32,
    pub hops: Vec<Hop>,
}

/// What the solver's graph builder accepts of an edge: non-negative capacity,
/// no self loop, nothing into the source or out of the sink.
pub open spec fn edge_admissible(e: FlowEdge) -> bool {
    &&& e.cap >= 0
    &&& e.from != e.to
    &&& e.from != NodeId::Sink
    &&& e.to != NodeId::Source
}

/// Some edge of the graph runs from `a` to `b`.
pub open spec fn edge_on(edges: Seq<FlowEdge>, a: NodeId, b: NodeId) -> bool {
    exists|j: int| 0 <= j < edges.len() && (#[trigger] edges[j]).from == a && edges[j].to == b
}

/// A decomposition path is sound for a graph: it carries at least one unit,
/// runs as a chain from the source to the sink, and uses only the graph's
/// edges.
pub open spec fn path_wf(p: SolvedPath, edges: Seq<FlowEdge>) -> bool {
    &&& p.amount >= 1
    &&& p.hops@.len() >= 1
    &&& p.hops@[0].from == NodeId::Source
    &&& p.hops@[p.hops@.len() - 1].to == NodeId::Sink
    &&& forall|k: int|
        0 <= k < p.hops@.len() - 1 ==> (#[trigger] p.hops@[k]).to == p.hops@[k + 1].from
    &&& forall|k: int|
        0 <= k < p.hops@.len() ==> edge_on(edges, (#[trigger] p.hops@[k]).from, p.hops@[k].to)
}

/// How many hops run from `a` to `b`.
pub open spec fn hop_count(hops: Seq<Hop>, a: NodeId, b: NodeId) -> int
    decreases hops.len(),
{
    if hops.len() == 0 {
        0
    } else {
        hop_count(hops.drop_last(), a, b) + if hops.last().from == a && hops.last().to == b {
            1int
        } else {
            0
        }
    }
}

/// How many hops leave node `a`.
pub open spec fn hops_from(hops: Seq<Hop>, a: NodeId) -> int
    decreases hops.len(),
{
    if hops.len() == 0 {
        0
    } else {
        hops_from(hops.drop_last(), a) + if hops.last().from == a {
            1int
        } else {
            0
        }
    }
}

/// How many hops enter node `b`.
pub open spec fn hops_into(hops: Seq<Hop>, b: NodeId) -> int
    decreases hops.len(),
{
    if hops.len() == 0 {
        0
    } else {
        hops_into(hops.drop_last(), b) + if hops.last().to == b {
            1int
        } else {
            0
        }
    }
}

/// Total flow the decomposition pushes from `a` to `b`.
pub open spec fn flow_between(paths: Seq<SolvedPath>, a: NodeId, b: NodeId) -> int
    decreases paths.len(),
{
    if paths.len() == 0 {
        0
    } else {
        flow_between(paths.drop_last(), a, b) + paths.last().amount * hop_count(
            paths.last().hops@,
            a,
            b,
        )
    }
}

/// Total flow the decomposition sends out of node `a`.
pub open spec fn flow_out_of(paths: Seq<SolvedPath>, a: NodeId) -> int
    decreases paths.len(),
{
    if paths.len() == 0 {
        0
    } else {
        flow_out_of(paths.drop_last(), a) + paths.last().amount * hops_from(paths.last().hops@, a)
    }
}

/// Total flow the decomposition sends into node `b`.
pub open spec fn flow_into(paths: Seq<SolvedPath>, b: NodeId) -> int
    decreases paths.len(),
{
    if paths.len() == 0 {
        0
    } else {
        flow_into(paths.drop_last(), b) + paths.last().amount * hops_into(paths.last().hops@, b)
    }
}

/// Total capacity of the edges from `a` to `b`.
pub open spec fn cap_between(edges: Seq<FlowEdge>, a: NodeId, b: NodeId) -> int
    decreases edges.len(),
{
    if edges.len() == 0 {
        0
    } else {
        cap_between(edges.drop_last(), a, b) + if edges.last().from == a && edges.last().to == b {
            edges.last().cap as int
        } else {
            0
        }
    }
}

/// Appending an edge adds its capacity to exactly its own endpoint pair.
pub proof fn lemma_cap_between_push(edges: Seq<FlowEdge>, e: FlowEdge, a: NodeId, b: NodeId)
    ensures
        cap_between(edges.push(e), a, b) == cap_between(edges, a, b) + if e.from == a && e.to == b {
            e.cap as int
        } else {
            0
        },
{
    assert(edges.push(e).drop_last() =~= edges);
}

/// Appending an edge preserves and extends `edge_on`.
pub proof fn lemma_edge_on_push(edges: Seq<FlowEdge>, e: FlowEdge, a: NodeId, b: NodeId)
    ensures
        edge_on(edges.push(e), a, b) <==> (edge_on(edges, a, b) || (e.from == a && e.to == b)),
{
    if edge_on(edges, a, b) {
        let j = choose|j: int| 0 <= j < edges.len() && (#[trigger] edges[j]).from == a
            && edges[j].to == b;
        assert(edges.push(e)[j].from == a && edges.push(e)[j].to == b);
    }
    if e.from == a && e.to == b {
        assert(edges.push(e)[edges.len() as int].from == a && edges.push(e)[edges.len() as int].to
            == b);
    }
    if edge_on(edges.push(e), a, b) && !(e.from == a && e.to == b) {
        let j = choose|j: int| 0 <= j < edges.push(e).len() && (#[trigger] edges.push(e)[j]).from
            == a && edges.push(e)[j].to == b;
        assert(edges[j].from == a && edges[j].to == b);
    }
}

/// Append one edge to a growing graph, recording how every capacity sum and
/// every edge presence changes.
pub fn push_edge(edges: &mut Vec<FlowEdge>, e: FlowEdge)
    ensures
        final(edges)@ == old(edges)@.push(e),
        forall|a: NodeId, b: NodeId|
            #[trigger] cap_between(final(edges)@, a, b) == cap_between(old(edges)@, a, b) + (if e.from
                == a && e.to == b {
                e.cap as int
            } else {
                0
            }),
        forall|a: NodeId, b: NodeId|
            #[trigger] edge_on(final(edges)@, a, b) <==> (edge_on(old(edges)@, a, b) || (e.from == a
                && e.to == b)),
{
    let ghost pre = edges@;
    edges.push(e);
    proof {
        assert forall|a: NodeId, b: NodeId| #[trigger]
            cap_between(edges@, a, b) == cap_between(pre, a, b) + (if e.from == a && e.to == b {
                e.cap as int
            } else {
                0
            }) by {
            lemma_cap_between_push(pre, e, a, b);
        }
        assert forall|a: NodeId, b: NodeId| #[trigger]
            edge_on(edges@, a, b) <==> (edge_on(pre, a, b) || (e.from == a && e.to == b)) by {
            lemma_edge_on_push(pre, e, a, b);
        }
    }
}

/// In any chain of hops, what leaves a node minus what enters it is decided
/// by the chain's two endpoints alone.
pub proof fn lemma_walk_balance(hops: Seq<Hop>, v: NodeId)
    requires
        hops.len() >= 1,
        forall|k: int| 0 <= k < hops.len() - 1 ==> (#[trigger] hops[k]).to == hops[k + 1].from,
    ensures
        hops_from(hops, v) - hops_into(hops, v) == (if v == hops[0].from {
            1int
        } else {
            0
        }) - (if v == hops.last().to {
            1int
        } else {
            0
        }),
    decreases hops.len(),
{
    if hops.len() == 1 {
        assert(hops.last() == hops[0]);
        assert(hops_from(hops.drop_last(), v) == 0);
        assert(hops_into(hops.drop_last(), v) == 0);
    } else {
        let pre = hops.drop_last();
        assert forall|k: int| 0 <= k < pre.len() - 1 implies (#[trigger] pre[k]).to == pre[k
            + 1].from by {
            assert(pre[k] == hops[k]);
            assert(pre[k + 1] == hops[k + 1]);
            assert(hops[k].to == hops[k + 1].from);
        }
        lemma_walk_balance(pre, v);
        assert(pre[0] == hops[0]);
        assert(pre.last() == hops[hops.len() - 2]);
        assert(hops[hops.len() - 2].to == hops[hops.len() - 1].from);
        assert(pre.last().to == hops.last().from);
    }
}

/// Hops that run only along edges never enter the source nor leave the sink.
pub proof fn lemma_hops_respect_ends(hops: Seq<Hop>, edges: Seq<FlowEdge>)
    requires
        forall|j: int| 0 <= j < edges.len() ==> edge_admissible(#[trigger] edges[j]),
        forall|k: int| 0 <= k < hops.len() ==> edge_on(edges, (#[trigger] hops[k]).from, hops[k].to),
    ensures
        hops_into(hops, NodeId::Source) == 0,
        hops_from(hops, NodeId::Sink) == 0,
    decreases hops.len(),
{
    if hops.len() > 0 {
        let pre = hops.drop_last();
        assert(forall|k: int|
            0 <= k < pre.len() ==> edge_on(edges, (#[trigger] pre[k]).from, pre[k].to));
        lemma_hops_respect_ends(pre, edges);
        assert(edge_on(edges, hops.last().from, hops.last().to));
        let j = choose|j: int| 0 <= j < edges.len() && (#[trigger] edges[j]).from
            == hops.last().from && edges[j].to == hops.last().to;
    }
}

/// If every edge of the graph into `v` leaves from `u`, then every hop into
/// `v` comes from `u`.
pub proof fn lemma_single_entry(hops: Seq<Hop>, edges: Seq<FlowEdge>, v: NodeId, u: NodeId)
    requires
        forall|k: int| 0 <= k < hops.len() ==> edge_on(edges, (#[trigger] hops[k]).from, hops[k].to),
        forall|j: int| 0 <= j < edges.len() && (#[trigger] edges[j]).to == v ==> edges[j].from == u,
    ensures
        hops_into(hops, v) == hop_count(hops, u, v),
    decreases hops.len(),
{
    if hops.len() > 0 {
        let pre = hops.drop_last();
        assert(forall|k: int|
            0 <= k < pre.len() ==> edge_on(edges, (#[trigger] pre[k]).from, pre[k].to));
        lemma_single_entry(pre, edges, v, u);
        if hops.last().to == v {
            assert(edge_on(edges, hops.last().from, hops.last().to));
            let j = choose|j: int| 0 <= j < edges.len() && (#[trigger] edges[j]).from
                == hops.last().from && edges[j].to == hops.last().to;
            assert(hops.last().from == u);
        }
    }
}

/// A hop from `a` to `b` is in particular a hop from `a`.
pub proof fn lemma_hop_count_le_from(hops: Seq<Hop>, a: NodeId, b: NodeId)
    ensures
        0 <= hop_count(hops, a, b) <= hops_from(hops, a),
        0 <= hops_into(hops, b),
    decreases hops.len(),
{
    if hops.len() > 0 {
        lemma_hop_count_le_from(hops.drop_last(), a, b);
    }
}

/// Law: flow is conserved. In a solved decomposition over admissible edges,
/// the total flow out of the source equals the total flow into the sink, and
/// equals the sum of the paths' amounts; and at every other node, inflow
/// equals outflow.
pub proof fn lemma_flow_conservation(paths: Seq<SolvedPath>, edges: Seq<FlowEdge>, v: NodeId)
    requires
        forall|j: int| 0 <= j < edges.len() ==> edge_admissible(#[trigger] edges[j]),
        forall|i: int| 0 <= i < paths.len() ==> path_wf(#[trigger] paths[i], edges),
    ensures
        flow_out_of(paths, NodeId::Source) == flow_into(paths, NodeId::Sink),
        v != NodeId::Source && v != NodeId::Sink ==> flow_out_of(paths, v) == flow_into(paths, v),
    decreases paths.len(),
{
    if paths.len() > 0 {
        let pre = paths.drop_last();
        assert(forall|i: int| 0 <= i < pre.len() ==> path_wf(#[trigger] pre[i], edges));
        lemma_flow_conservation(pre, edges, v);
        let p = paths.last();
        assert(path_wf(p, edges));
        lemma_walk_balance(p.hops@, NodeId::Source);
        lemma_walk_balance(p.hops@, NodeId::Sink);
        lemma_walk_balance(p.hops@, v);
        lemma_hops_respect_ends(p.hops@, edges);
    }
}

/// If every edge of the graph into `v` leaves from `u`, all flow into `v`
/// comes from `u`.
pub proof fn lemma_flow_single_entry(
    paths: Seq<SolvedPath>,
    edges: Seq<FlowEdge>,
    v: NodeId,
    u: NodeId,
)
    requires
        forall|i: int| 0 <= i < paths.len() ==> path_wf(#[trigger] paths[i], edges),
        forall|j: int| 0 <= j < edges.len() && (#[trigger] edges[j]).to == v ==> edges[j].from == u,
    ensures
        flow_into(paths, v) == flow_between(paths, u, v),
    decreases paths.len(),
{
    if paths.len() > 0 {
        let pre = paths.drop_last();
        assert(forall|i: int| 0 <= i < pre.len() ==> path_wf(#[trigger] pre[i], edges));
        lemma_flow_single_entry(pre, edges, v, u);
        assert(path_wf(paths.last(), edges));
        lemma_single_entry(paths.last().hops@, edges, v, u);
    }
}

/// Flow between two nodes is at most all flow leaving the first.
pub proof fn lemma_flow_between_le_out(paths: Seq<SolvedPath>, a: NodeId, b: NodeId)
    ensures
        0 <= flow_between(paths, a, b) <= flow_out_of(paths, a),
    decreases paths.len(),
{
    if paths.len() > 0 {
        lemma_flow_between_le_out(paths.drop_last(), a, b);
        let p = paths.last();
        lemma_hop_count_le_from(p.hops@, a, b);
        assert(p.amount * hop_count(p.hops@, a, b) <= p.amount * hops_from(p.hops@, a) && 0
            <= p.amount * hop_count(p.hops@, a, b)) by (nonlinear_arith)
            requires
                p.amount >= 0,
                0 <= hop_count(p.hops@, a, b) <= hops_from(p.hops@, a),
        ;
    }
}

/// A name for what `mcmf::GraphBuilder::mcmf` returns on a given edge list:
/// the total cost, and per path its amount and its hops. The solver is
/// deterministic, so the result is a function of the edges alone.
pub uninterp spec fn mcmf_solution(edges: Seq<FlowEdge>) -> (int, Seq<(int, Seq<Hop>)>);

/// The decomposition as the named solution describes it.
pub open spec fn paths_view(paths: Seq<SolvedPath>) -> Seq<(int, Seq<Hop>)> {
    paths.map(|i: int, p: SolvedPath| (p.amount as int, p.hops@))
}

/// `mcmf::Vertex` so that the conversions below can name it.
#[verifier::external_type_specification]
#[verifier::external_body]
#[verifier::reject_recursive_types(T)]
pub struct ExVertex<T: Clone + Ord>(mcmf::Vertex<T>);

/// Relies on the `mcmf::Vertex` constructors: builds the vertex key this node
/// stands for.
#[verifier::external_body]
fn vertex_of_node(k: &NodeId) -> mcmf::Vertex<(i32, i32, i32)> {
    match *k {
        NodeId::Source => mcmf::Vertex::Source,
        NodeId::Sink => mcmf::Vertex::Sink,
        NodeId::Node { planet, turn, phase } => mcmf::Vertex::Node(
            (planet, turn, if phase == Phase::Departure { 1 } else { 0 }),
        ),
    }
}

/// Relies on matching `mcmf::Vertex`: reads back the node a solved vertex
/// stands for, moving the fields `vertex_of_node` wrote.
#[verifier::external_body]
fn node_of_vertex(v: &mcmf::Vertex<(i32, i32, i32)>) -> NodeId {
    match *v {
        mcmf::Vertex::Source => NodeId::Source,
        mcmf::Vertex::Sink => NodeId::Sink,
        mcmf::Vertex::Node((planet, turn, phase)) => NodeId::Node {
            planet,
            turn,
            phase: if phase == 1 { Phase::Departure } else { Phase::Arrival },
        },
    }
}

/// Relies on `mcmf::GraphBuilder::{new, add_edge, mcmf}`: solves the minimum
/// cost maximum flow problem on the given edges with the LEMON network
/// simplex and decomposes the result into source-to-sink paths. The crate's
/// builder panics on an inadmissible edge, so those are excluded here. Its
/// decomposition only returns chains from source to sink with a positive
/// uniform amount along the chain's edges; each chain hop follows one of the
/// input edges; and the flow it pushes over the edges between any two nodes
/// never exceeds those edges' total capacity. The solver is deterministic:
/// the whole result is `mcmf_solution` of the edges.
#[verifier::external_body]
fn run_mcmf(edges: &Vec<FlowEdge>) -> (r: (i32, Vec<SolvedPath>))
    requires
        forall|j: int| 0 <= j < edges@.len() ==> edge_admissible(#[trigger] edges@[j]),
    ensures
        r.0 as int == mcmf_solution(edges@).0,
        paths_view(r.1@) == mcmf_solution(edges@).1,
        forall|i: int| 0 <= i < r.1@.len() ==> path_wf(#[trigger] r.1@[i], edges@),
        forall|a: NodeId, b: NodeId|
            #[trigger] flow_between(r.1@, a, b) <= cap_between(edges@, a, b),
{
    let mut gb = mcmf::GraphBuilder::new();
    for e in edges.iter() {
        gb.add_edge(vertex_of_node(&e.from), vertex_of_node(&e.to), mcmf::Capacity(e.cap), mcmf::Cost(e.cost));
    }
    let (cost, paths) = gb.mcmf();
    let hops_of = |p: &mcmf::Path<(i32, i32, i32)>| p.flows.iter().map(|f| Hop { from: node_of_vertex(&f.a), to: node_of_vertex(&f.b) }).collect();
    let out = paths.iter().map(|p| SolvedPath { amount: p.amount(), hops: hops_of(p) }).collect();
    (cost, out)
}

/// Solve the assembled flow network. A thin verified shell over the trusted
/// call, so that callers get its promises from one place; it also proves the
/// degenerate case: a graph with nothing leaving the source carries no flow,
/// so the decomposition is empty.
pub fn solve_min_cost_flow(edges: &Vec<FlowEdge>) -> (r: (i32, Vec<SolvedPath>))
    requires
        forall|j: int| 0 <= j < edges@.len() ==> edge_admissible(#[trigger] edges@[j]),
    ensures
        r.0 as int == mcmf_solution(edges@).0,
        paths_view(r.1@) == mcmf_solution(edges@).1,
        forall|i: int| 0 <= i < r.1@.len() ==> path_wf(#[trigger] r.1@[i], edges@),
        forall|a: NodeId, b: NodeId|
            #[trigger] flow_between(r.1@, a, b) <= cap_between(edges@, a, b),
        (forall|j: int| 0 <= j < edges@.len() ==> (#[trigger] edges@[j]).from != NodeId::Source)
            ==> r.1@.len() == 0,
{
    let r = run_mcmf(edges);
    proof {
        if (forall|j: int|
            0 <= j < edges@.len() ==> (#[trigger] edges@[j]).from != NodeId::Source) && r.1@.len()
            > 0 {
            let p0 = r.1@[0];
            assert(path_wf(p0, edges@));
            assert(edge_on(edges@, p0.hops@[0].from, p0.hops@[0].to));
            let j = choose|j: int|
                0 <= j < edges@.len() && (#[trigger] edges@[j]).from == p0.hops@[0].from
                    && edges@[j].to == p0.hops@[0].to;
            assert(false);
        }
    }
    r
}

} // verus!
