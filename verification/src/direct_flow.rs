use vstd::prelude::*;

use crate::flow::{
    cap_between, edge_admissible, edge_on, flow_between, flow_out_of, mcmf_solution, paths_view,
    path_wf, solve_min_cost_flow, FlowEdge, Hop, NodeId, Phase, SolvedPath,
};
use crate::geometry::spec_dist;
use crate::state::{owner_eq, State, PREDICT_COUNT_BOUND};
use crate::structs::{Move, PlanetName, PlayerId};
use crate::MAX_TURNS;

verus! {

/// How many turns ahead the planner reasons.
pub const LOOK_AHEAD: usize = 40;

/// Cost per ship left unassigned at the horizon: unused friendly supply
/// should rather be sent somewhere.
pub const IDLE_PENALTY_COST: i32 = 1000;

/// Cost credit for flow that would land beyond the horizon.
pub const BEYOND_HORIZON_COST: i32 = -400;

/// Capacity standing for "unbounded".
pub const UNBOUNDED: i32 = i32::MAX;

/// The time-expanded min-cost-flow planner. `id` is the player the bot plays.
pub struct Flow1Algorithm {
    pub id: Option<PlayerId>,
}

/// The arrival node of planet `p` at turn-offset `t`.
pub open spec fn in_node(p: int, t: int) -> NodeId {
    NodeId::Node { planet: p as i32, turn: t as i32, phase: Phase::Arrival }
}

/// The departure node of planet `p` at turn-offset `t`.
pub open spec fn out_node(p: int, t: int) -> NodeId {
    NodeId::Node { planet: p as i32, turn: t as i32, phase: Phase::Departure }
}

/// Clamp to the `i32` range.
pub open spec fn clamp_i32(x: int) -> int {
    if x > i32::MAX {
        i32::MAX as int
    } else if x < i32::MIN {
        i32::MIN as int
    } else {
        x
    }
}

/// Clamp to a non-negative `i32` capacity.
pub open spec fn clamp_cap(x: int) -> int {
    if x > i32::MAX {
        i32::MAX as int
    } else if x < 0 {
        0
    } else {
        x
    }
}

/// The first entry of the neighbour list, from position `k` on, whose planet
/// is predicted to be `me`'s at offset `t`: the nearest friendly planet.
pub open spec fn first_friendly(
    s: State,
    me: Option<PlayerId>,
    row: Seq<(u64, usize)>,
    t: int,
    k: int,
) -> Option<(u64, usize)>
    decreases row.len() - k,
{
    if k < 0 || k >= row.len() {
        None
    } else if s.spec_predict(row[k].1 as int, t).0 == me {
        Some(row[k])
    } else {
        first_friendly(s, me, row, t, k + 1)
    }
}

/// Desirability of capturing planet `p` at offset `t`, scaled by 1000: ships
/// the nearest friendly planet has to spare over the target's, per distance
/// unit. A planet of one's own scores a fixed negative value, and with no
/// friendly planet in sight the score is zero.
pub open spec fn spec_score_scaled(s: State, me: Option<PlayerId>, p: int, t: int) -> int {
    if s.spec_predict(p, t).0 == me {
        -3000
    } else {
        match first_friendly(s, me, s.nearest_planets@[p]@, t, 0) {
            None => 0,
            Some(e) => {
                let fc = s.spec_predict(e.1 as int, t).1;
                let tc = s.spec_predict(p, t).1;
                let diff = if fc - tc > 1_000_000_000_000 {
                    1_000_000_000_000int
                } else if fc - tc < -1_000_000_000_000 {
                    -1_000_000_000_000int
                } else {
                    fc - tc
                };
                if diff >= 0 {
                    (diff * 1_000_000) / (e.0 as int)
                } else {
                    -(((-diff) * 1_000_000) / (e.0 as int))
                }
            },
        }
    }
}

/// The cost of a capture edge: more desirable targets cost less, so that the
/// solver prefers them.
pub open spec fn spec_capture_cost(s: State, me: Option<PlayerId>, p: int, t: int) -> int {
    clamp_i32(-spec_score_scaled(s, me, p, t))
}

/// The edges for neighbour `k` of planet `p` at offset `t`: a movement edge
/// costing the transit time, and, where the landing turn lies beyond the
/// horizon, a synthetic pass-through pair that lets the flow drain.
pub open spec fn one_move(s: State, p: int, t: int, h: int, k: int) -> Seq<FlowEdge> {
    let e = s.nearest_planets@[p]@[k];
    let delta = (e.0 + 999) / 1000;
    let t2 = t + delta;
    let q = e.1 as int;
    let base = seq![
        FlowEdge { from: out_node(p, t), to: in_node(q, t2), cap: UNBOUNDED, cost: delta as i32 },
    ];
    if t2 > h {
        base + seq![
            FlowEdge {
                from: in_node(q, t2),
                to: out_node(q, t2),
                cap: UNBOUNDED,
                cost: BEYOND_HORIZON_COST,
            },
            FlowEdge { from: out_node(q, t2), to: NodeId::Sink, cap: UNBOUNDED, cost: 0 },
        ]
    } else {
        base
    }
}

/// The movement edges of planet `p` at offset `t`, for its first `j`
/// neighbours.
pub open spec fn move_edges(s: State, p: int, t: int, h: int, j: int) -> Seq<FlowEdge>
    decreases j,
{
    if j <= 0 {
        Seq::empty()
    } else {
        move_edges(s, p, t, h, j - 1) + one_move(s, p, t, h, j - 1)
    }
}

/// The non-movement edges of planet `p` at offset `t`: the carry-over from
/// the previous turn; for a friendly planet a free hold edge, the supply
/// injection (garrison at offset zero, one ship of growth, or a just-arrived
/// force), and the idle penalty at the horizon; for a non-friendly planet a
/// capture edge priced by desirability beside a free pass-through, and a free
/// drain at the horizon.
pub open spec fn cell_base(s: State, me: Option<PlayerId>, p: int, t: int, h: int) -> Seq<
    FlowEdge,
> {
    let stay: Seq<FlowEdge> = if t > 0 {
        seq![FlowEdge { from: out_node(p, t - 1), to: in_node(p, t), cap: UNBOUNDED, cost: 0 }]
    } else {
        Seq::empty()
    };
    let pred = s.spec_predict(p, t);
    let own: Seq<FlowEdge> = if pred.0 == me {
        seq![FlowEdge { from: in_node(p, t), to: out_node(p, t), cap: UNBOUNDED, cost: 0 }] + (if t
            == 0 {
            seq![
                FlowEdge {
                    from: NodeId::Source,
                    to: in_node(p, t),
                    cap: clamp_cap(pred.1) as i32,
                    cost: 0,
                },
            ]
        } else if s.spec_predict(p, t - 1).0 == me {
            seq![FlowEdge { from: NodeId::Source, to: in_node(p, t), cap: 1, cost: 0 }]
        } else {
            seq![
                FlowEdge {
                    from: NodeId::Source,
                    to: in_node(p, t),
                    cap: clamp_cap(pred.1) as i32,
                    cost: 0,
                },
            ]
        }) + (if t == h {
            seq![
                FlowEdge {
                    from: out_node(p, t),
                    to: NodeId::Sink,
                    cap: UNBOUNDED,
                    cost: IDLE_PENALTY_COST,
                },
            ]
        } else {
            Seq::empty()
        })
    } else {
        seq![
            FlowEdge {
                from: in_node(p, t),
                to: out_node(p, t),
                cap: clamp_cap(pred.1 + 1) as i32,
                cost: spec_capture_cost(s, me, p, t) as i32,
            },
            FlowEdge { from: in_node(p, t), to: out_node(p, t), cap: UNBOUNDED, cost: 0 },
        ] + (if t == h {
            seq![FlowEdge { from: out_node(p, t), to: NodeId::Sink, cap: UNBOUNDED, cost: 0 }]
        } else {
            Seq::empty()
        })
    };
    stay + own
}

/// Every edge planet `p` contributes at offset `t`.
pub open spec fn cell_edges(s: State, me: Option<PlayerId>, p: int, t: int, h: int) -> Seq<
    FlowEdge,
> {
    cell_base(s, me, p, t, h) + move_edges(s, p, t, h, s.nearest_planets@[p]@.len() as int)
}

/// Planet `p`'s edges for the offsets below `t`.
pub open spec fn turn_edges(s: State, me: Option<PlayerId>, p: int, t: int, h: int) -> Seq<
    FlowEdge,
>
    decreases t,
{
    if t <= 0 {
        Seq::empty()
    } else {
        turn_edges(s, me, p, t - 1, h) + cell_edges(s, me, p, t - 1, h)
    }
}

/// The edges of the planets below `p`.
pub open spec fn graph_edges(s: State, me: Option<PlayerId>, p: int, h: int) -> Seq<FlowEdge>
    decreases p,
{
    if p <= 0 {
        Seq::empty()
    } else {
        graph_edges(s, me, p - 1, h) + turn_edges(s, me, p - 1, h + 1, h)
    }
}

/// The whole time-expanded flow network for horizon `h`.
pub open spec fn spec_graph(s: State, me: Option<PlayerId>, h: int) -> Seq<FlowEdge> {
    graph_edges(s, me, s.num_planets(), h)
}

/// Clamp to the `i32` range, as executable code.
fn clamp_to_i32(x: i64) -> (r: i32)
    ensures
        r as int == clamp_i32(x as int),
{
    if x > i32::MAX as i64 {
        i32::MAX
    } else if x < i32::MIN as i64 {
        i32::MIN
    } else {
        x as i32
    }
}

/// Clamp to a non-negative `i32` capacity, as executable code.
fn clamp_to_cap(x: i64) -> (r: i32)
    ensures
        r as int == clamp_cap(x as int),
{
    if x > i32::MAX as i64 {
        i32::MAX
    } else if x < 0 {
        0
    } else {
        x as i32
    }
}

/// Skipping non-friendly entries does not change which friendly entry comes
/// first.
proof fn lemma_first_friendly_skip(
    s: State,
    me: Option<PlayerId>,
    row: Seq<(u64, usize)>,
    t: int,
    k: int,
)
    requires
        0 <= k <= row.len(),
        forall|j: int| 0 <= j < k ==> s.spec_predict((#[trigger] row[j]).1 as int, t).0 != me,
    ensures
        first_friendly(s, me, row, t, 0) == first_friendly(s, me, row, t, k),
    decreases k,
{
    if k > 0 {
        lemma_first_friendly_skip(s, me, row, t, k - 1);
    }
}

/// A move's ghost content: origin name, destination name, ship count.
pub open spec fn move_view(m: Move) -> (Seq<char>, Seq<char>, int) {
    (m.origin@, m.destination@, m.ship_count as int)
}

/// The ghost content of a move list.
pub open spec fn moves_view(moves: Seq<Move>) -> Seq<(Seq<char>, Seq<char>, int)> {
    moves.map(|i: int, m: Move| move_view(m))
}

/// The planet names as ghost data.
pub open spec fn names_views(names: Seq<String>) -> Seq<Seq<char>> {
    names.map(|i: int, nm: String| nm@)
}

/// Whether a hop of the solved flow is an actual order: it departs from some
/// planet's offset-zero departure node and lands on a different, known
/// planet. Carry-overs and later-turn routing are not actionable this turn.
pub open spec fn emit_hop(hop: Hop, n: int) -> Option<(int, int)> {
    match hop.from {
        NodeId::Node { planet: a, turn: ta, phase: pa } => match hop.to {
            NodeId::Node { planet: b, turn: tb, phase: pb } => {
                if pa == Phase::Departure && ta == 0 && a != b && 0 <= a < n && 0 <= b < n {
                    Some((a as int, b as int))
                } else {
                    None
                }
            },
            _ => None,
        },
        _ => None,
    }
}

/// The orders read off the first `k` hops of one path carrying `amount`.
pub open spec fn extract_hops(
    names: Seq<Seq<char>>,
    amount: int,
    hops: Seq<Hop>,
    k: int,
) -> Seq<(Seq<char>, Seq<char>, int)>
    decreases k,
{
    if k <= 0 {
        Seq::empty()
    } else {
        extract_hops(names, amount, hops, k - 1) + match emit_hop(hops[k - 1], names.len() as int) {
            Some(od) => seq![(names[od.0], names[od.1], amount)],
            None => Seq::empty(),
        }
    }
}

/// The orders read off the first `i` paths of the decomposition.
pub open spec fn extract_paths(
    names: Seq<Seq<char>>,
    pv: Seq<(int, Seq<Hop>)>,
    i: int,
) -> Seq<(Seq<char>, Seq<char>, int)>
    decreases i,
{
    if i <= 0 {
        Seq::empty()
    } else {
        extract_paths(names, pv, i - 1) + extract_hops(
            names,
            pv[i - 1].0,
            pv[i - 1].1,
            pv[i - 1].1.len() as int,
        )
    }
}

/// What one planning pass emits, as a function of the state alone: build the
/// network, solve it, read the orders off the solved paths.
pub open spec fn spec_moves(s: State, me: Option<PlayerId>, h: int) -> Seq<(
    Seq<char>,
    Seq<char>,
    int,
)> {
    let sol = mcmf_solution(spec_graph(s, me, h));
    extract_paths(names_views(s.planet_names@), sol.1, sol.1.len() as int)
}

/// Total ship count of the moves departing from `origin`.
pub open spec fn moves_from(moves: Seq<Move>, origin: Seq<char>) -> int
    decreases moves.len(),
{
    if moves.len() == 0 {
        0
    } else {
        moves_from(moves.drop_last(), origin) + if moves.last().origin@ == origin {
            moves.last().ship_count as int
        } else {
            0
        }
    }
}

/// Law: the planner is deterministic. On equal states with equal horizons,
/// two planning passes can only emit the same move list.
pub proof fn lemma_determinism(
    s: State,
    me: Option<PlayerId>,
    h: int,
    m1: Seq<(Seq<char>, Seq<char>, int)>,
    m2: Seq<(Seq<char>, Seq<char>, int)>,
)
    requires
        m1 == spec_moves(s, me, h),
        m2 == spec_moves(s, me, h),
    ensures
        m1 == m2,
{
}

/// Appending a hop adds one departure to exactly its own node's count.
proof fn lemma_hops_from_push(hops: Seq<Hop>, hop: Hop, a: NodeId)
    ensures
        crate::flow::hops_from(hops.push(hop), a) == crate::flow::hops_from(hops, a) + if hop.from
            == a {
            1int
        } else {
            0
        },
{
    assert(hops.push(hop).drop_last() =~= hops);
}

/// Appending a move adds its ships to exactly its own origin's total.
proof fn lemma_moves_from_push(moves: Seq<Move>, m: Move, origin: Seq<char>)
    ensures
        moves_from(moves.push(m), origin) == moves_from(moves, origin) + if m.origin@ == origin {
            m.ship_count as int
        } else {
            0
        },
{
    assert(moves.push(m).drop_last() =~= moves);
}

/// No planet is predicted to be `me`'s at any offset up to `h`: the graph
/// then has no supply at all.
pub open spec fn no_friendly(s: State, me: Option<PlayerId>, h: int) -> bool {
    forall|pp: int, tt: int|
        0 <= pp < s.num_planets() && 0 <= tt <= h ==> (#[trigger] s.spec_predict(pp, tt)).0 != me
}

/// The shape every edge of the built graph has: only the matching arrival
/// node feeds a departure node, and only the source feeds an arrival node at
/// offset zero.
pub open spec fn edge_shape_ok(e: FlowEdge) -> bool {
    match e.to {
        NodeId::Node { planet, turn, phase } => {
            &&& (phase == Phase::Departure ==> e.from == NodeId::Node {
                planet,
                turn,
                phase: Phase::Arrival,
            })
            &&& (phase == Phase::Arrival && turn == 0 ==> e.from == NodeId::Source)
        },
        _ => true,
    }
}

/// Every edge of the built graph is admissible and has the expected shape.
pub open spec fn edges_ok(edges: Seq<FlowEdge>) -> bool {
    &&& forall|j: int| 0 <= j < edges.len() ==> edge_admissible(#[trigger] edges[j])
    &&& forall|j: int| 0 <= j < edges.len() ==> edge_shape_ok(#[trigger] edges[j])
}

impl Flow1Algorithm {
    /// Push the non-movement edges of planet `p` at offset `t`.
    fn push_cell_base(
        &self,
        state: &State,
        edges: &mut Vec<FlowEdge>,
        p: usize,
        t: usize,
        horizon: usize,
    )
        requires
            state.wf(),
            1 <= horizon <= MAX_TURNS,
            p < state.num_planets(),
            t <= horizon,
        ensures
            final(edges)@ == old(edges)@ + cell_base(
                *state,
                self.id,
                p as int,
                t as int,
                horizon as int,
            ),
            edges_ok(old(edges)@) ==> edges_ok(final(edges)@),
            forall|pp: int|
                0 <= pp < state.num_planets() ==> #[trigger] cap_between(
                    final(edges)@,
                    NodeId::Source,
                    in_node(pp, 0),
                ) == cap_between(old(edges)@, NodeId::Source, in_node(pp, 0)) + (if pp == p as int
                    && t == 0 && state.spec_predict(p as int, 0).0 == self.id {
                    clamp_cap(state.spec_predict(p as int, 0).1)
                } else {
                    0
                }),
            forall|a: NodeId, b: NodeId|
                edge_on(old(edges)@, a, b) ==> #[trigger] edge_on(final(edges)@, a, b),
            t > 0 ==> edge_on(final(edges)@, out_node(p as int, t as int - 1), in_node(p as int, t as int)),
            t == horizon ==> edge_on(final(edges)@, out_node(p as int, t as int), NodeId::Sink),
            state.spec_predict(p as int, t as int).0 != self.id ==> forall|j: int|
                old(edges)@.len() <= j < final(edges)@.len()
                    ==> (#[trigger] final(edges)@[j]).from != NodeId::Source,
    {
        let ghost s = *state;
        let ghost me = self.id;
        let ghost h = horizon as int;
        let ghost base = edges@;
        let pi: i32 = p as i32;
        let ti: i32 = t as i32;
        let node_in = NodeId::Node { planet: pi, turn: ti, phase: Phase::Arrival };
        let node_out = NodeId::Node { planet: pi, turn: ti, phase: Phase::Departure };
        proof {
            assert(node_in == in_node(p as int, t as int));
            assert(node_out == out_node(p as int, t as int));
        }
        if t != 0 {
            let prev_out = NodeId::Node { planet: pi, turn: ti - 1, phase: Phase::Departure };
            proof {
                assert(prev_out == out_node(p as int, t as int - 1));
            }
            crate::flow::push_edge(
                &mut *edges,
                FlowEdge { from: prev_out, to: node_in, cap: UNBOUNDED, cost: 0 },
            );
        }
        let pred = state.predict_planet(t as i64, &p);
        if owner_eq(pred.0, self.id) {
            crate::flow::push_edge(
                &mut *edges,
                FlowEdge { from: node_in, to: node_out, cap: UNBOUNDED, cost: 0 },
            );
            if t == 0 {
                let cap0 = clamp_to_cap(pred.1);
                crate::flow::push_edge(
                    &mut *edges,
                    FlowEdge { from: NodeId::Source, to: node_in, cap: cap0, cost: 0 },
                );
            } else {
                let prev = state.predict_planet(t as i64 - 1, &p);
                if owner_eq(prev.0, pred.0) {
                    crate::flow::push_edge(
                        &mut *edges,
                        FlowEdge { from: NodeId::Source, to: node_in, cap: 1, cost: 0 },
                    );
                } else {
                    let capg = clamp_to_cap(pred.1);
                    crate::flow::push_edge(
                        &mut *edges,
                        FlowEdge { from: NodeId::Source, to: node_in, cap: capg, cost: 0 },
                    );
                }
            }
            if t == horizon {
                crate::flow::push_edge(
                    &mut *edges,
                    FlowEdge {
                        from: node_out,
                        to: NodeId::Sink,
                        cap: UNBOUNDED,
                        cost: IDLE_PENALTY_COST,
                    },
                );
            }
        } else {
            let score = self.calculate_score(p, t as i64, state);
            let cost = clamp_to_i32(-score);
            let capc = clamp_to_cap(pred.1 + 1);
            crate::flow::push_edge(
                &mut *edges,
                FlowEdge { from: node_in, to: node_out, cap: capc, cost },
            );
            crate::flow::push_edge(
                &mut *edges,
                FlowEdge { from: node_in, to: node_out, cap: UNBOUNDED, cost: 0 },
            );
            if t == horizon {
                crate::flow::push_edge(
                    &mut *edges,
                    FlowEdge { from: node_out, to: NodeId::Sink, cap: UNBOUNDED, cost: 0 },
                );
            }
        }
        proof {
            assert(edges@ =~= base + cell_base(s, me, p as int, t as int, h));
        }
    }

    /// Push the movement edges of planet `p` at offset `t`, one per
    /// neighbour, with the synthetic drain pair where the landing turn lies
    /// beyond the horizon.
    fn push_moves(
        &self,
        state: &State,
        edges: &mut Vec<FlowEdge>,
        p: usize,
        t: usize,
        horizon: usize,
    )
        requires
            state.wf(),
            1 <= horizon <= MAX_TURNS,
            p < state.num_planets(),
            t <= horizon,
        ensures
            final(edges)@ == old(edges)@ + move_edges(
                *state,
                p as int,
                t as int,
                horizon as int,
                state.nearest_planets@[p as int]@.len() as int,
            ),
            edges_ok(old(edges)@) ==> edges_ok(final(edges)@),
            forall|pp: int|
                0 <= pp < state.num_planets() ==> #[trigger] cap_between(
                    final(edges)@,
                    NodeId::Source,
                    in_node(pp, 0),
                ) == cap_between(old(edges)@, NodeId::Source, in_node(pp, 0)),
            forall|a: NodeId, b: NodeId|
                edge_on(old(edges)@, a, b) ==> #[trigger] edge_on(final(edges)@, a, b),
            forall|j: int|
                old(edges)@.len() <= j < final(edges)@.len() ==> (#[trigger] final(edges)@[j]).from
                    != NodeId::Source,
    {
        let ghost s = *state;
        let ghost h = horizon as int;
        let ghost based = edges@;
        let pi: i32 = p as i32;
        let ti: i32 = t as i32;
        let node_out = NodeId::Node { planet: pi, turn: ti, phase: Phase::Departure };
        proof {
            assert(node_out == out_node(p as int, t as int));
        }
        let row_len: usize = state.nearest_planets[p].len();
        let mut j: usize = 0;
        while j < row_len
            invariant
                state.wf(),
                s == *state,
                h == horizon as int,
                1 <= horizon <= MAX_TURNS,
                0 <= p < state.num_planets(),
                0 <= t <= horizon,
                node_out == out_node(p as int, t as int),
                row_len == state.nearest_planets@[p as int]@.len(),
                0 <= j <= row_len,
                edges@ == based + move_edges(s, p as int, t as int, h, j as int),
                edges_ok(based) ==> edges_ok(edges@),
                forall|pp: int|
                    0 <= pp < state.num_planets() ==> #[trigger] cap_between(
                        edges@,
                        NodeId::Source,
                        in_node(pp, 0),
                    ) == cap_between(based, NodeId::Source, in_node(pp, 0)),
                forall|a: NodeId, b: NodeId|
                    edge_on(based, a, b) ==> #[trigger] edge_on(edges@, a, b),
                forall|j2: int|
                    based.len() <= j2 < edges@.len() ==> (#[trigger] edges@[j2]).from
                        != NodeId::Source,
            decreases row_len - j,
        {
            proof {
                crate::geometry::lemma_row_element(
                    state.current_state.planets@,
                    p as int,
                    state.nearest_planets@[p as int]@,
                    j as int,
                );
            }
            let pair: (u64, usize) = state.nearest_planets[p][j];
            let d: u64 = pair.0;
            let q: usize = pair.1;
            proof {
                assert(1 <= spec_dist(
                    state.current_state.planets@[p as int],
                    state.current_state.planets@[q as int],
                ) <= 3_000_000_000);
                assert(1 <= d <= 3_000_000_000);
            }
            let delta: i64 = ((d + 999) / 1000) as i64;
            let t2: i64 = t as i64 + delta;
            let qn_in = NodeId::Node { planet: q as i32, turn: t2 as i32, phase: Phase::Arrival };
            crate::flow::push_edge(
                &mut *edges,
                FlowEdge { from: node_out, to: qn_in, cap: UNBOUNDED, cost: delta as i32 },
            );
            if t2 > horizon as i64 {
                let qn_out = NodeId::Node {
                    planet: q as i32,
                    turn: t2 as i32,
                    phase: Phase::Departure,
                };
                crate::flow::push_edge(
                    &mut *edges,
                    FlowEdge { from: qn_in, to: qn_out, cap: UNBOUNDED, cost: BEYOND_HORIZON_COST },
                );
                crate::flow::push_edge(
                    &mut *edges,
                    FlowEdge { from: qn_out, to: NodeId::Sink, cap: UNBOUNDED, cost: 0 },
                );
            }
            proof {
                assert(edges@ =~= based + move_edges(s, p as int, t as int, h, j + 1));
            }
            j = j + 1;
        }
    }

    /// Assemble the time-expanded flow network for the given horizon, exactly
    /// as `spec_graph` lays it out. Beside pinning the edge list down, the
    /// contract records the structural facts the planner's guarantees rest
    /// on: every edge is admissible and well-shaped; the supply injected at
    /// offset zero never exceeds a planet's observed garrison; every offset
    /// is fed by a carry-over edge from the one before it; and every
    /// departure node at the horizon can drain to the sink.
    pub fn build_graph(&self, state: &State, horizon: usize) -> (edges: Vec<FlowEdge>)
        requires
            state.wf(),
            1 <= horizon <= MAX_TURNS,
        ensures
            edges@ == spec_graph(*state, self.id, horizon as int),
            edges_ok(edges@),
            forall|pp: int|
                0 <= pp < state.num_planets() ==> cap_between(
                    edges@,
                    NodeId::Source,
                    in_node(pp, 0),
                ) <= state.spec_predict(pp, 0).1,
            forall|pp: int, tt: int|
                0 <= pp < state.num_planets() && 1 <= tt <= horizon ==> edge_on(
                    edges@,
                    out_node(pp, tt - 1),
                    in_node(pp, tt),
                ),
            forall|pp: int|
                0 <= pp < state.num_planets() ==> edge_on(
                    edges@,
                    out_node(pp, horizon as int),
                    NodeId::Sink,
                ),
            no_friendly(*state, self.id, horizon as int) ==> forall|j: int|
                0 <= j < edges@.len() ==> (#[trigger] edges@[j]).from != NodeId::Source,
    {
        let ghost s = *state;
        let ghost me = self.id;
        let ghost h = horizon as int;
        let n: usize = state.planet_names.len();
        let mut edges: Vec<FlowEdge> = Vec::new();
        let mut p: usize = 0;
        while p < n
            invariant
                state.wf(),
                s == *state,
                me == self.id,
                h == horizon as int,
                1 <= horizon <= MAX_TURNS,
                n == state.num_planets(),
                0 <= p <= n,
                edges@ == graph_edges(s, me, p as int, h),
                edges_ok(edges@),
                forall|pp: int|
                    0 <= pp < n ==> cap_between(edges@, NodeId::Source, in_node(pp, 0))
                        <= state.spec_predict(pp, 0).1,
                forall|pp: int|
                    p <= pp < n ==> cap_between(edges@, NodeId::Source, in_node(pp, 0)) == 0,
                forall|pp: int, tt: int|
                    0 <= pp < p && 1 <= tt <= horizon ==> edge_on(
                        edges@,
                        out_node(pp, tt - 1),
                        in_node(pp, tt),
                    ),
                forall|pp: int| 0 <= pp < p ==> edge_on(edges@, out_node(pp, h), NodeId::Sink),
                no_friendly(s, me, h) ==> forall|j: int|
                    0 <= j < edges@.len() ==> (#[trigger] edges@[j]).from != NodeId::Source,
            decreases n - p,
        {
            let mut t: usize = 0;
            while t <= horizon
                invariant
                    state.wf(),
                    s == *state,
                    me == self.id,
                    h == horizon as int,
                    1 <= horizon <= MAX_TURNS,
                    n == state.num_planets(),
                    0 <= p < n,
                    0 <= t <= horizon + 1,
                    edges@ == graph_edges(s, me, p as int, h) + turn_edges(
                        s,
                        me,
                        p as int,
                        t as int,
                        h,
                    ),
                    edges_ok(edges@),
                    forall|pp: int|
                        0 <= pp < n ==> cap_between(edges@, NodeId::Source, in_node(pp, 0))
                            <= state.spec_predict(pp, 0).1,
                    forall|pp: int|
                        p < pp < n ==> cap_between(edges@, NodeId::Source, in_node(pp, 0)) == 0,
                    t == 0 ==> cap_between(edges@, NodeId::Source, in_node(p as int, 0)) == 0,
                    forall|pp: int, tt: int|
                        0 <= pp < p && 1 <= tt <= horizon ==> edge_on(
                            edges@,
                            out_node(pp, tt - 1),
                            in_node(pp, tt),
                        ),
                    forall|pp: int| 0 <= pp < p ==> edge_on(edges@, out_node(pp, h), NodeId::Sink),
                    forall|tt: int|
                        1 <= tt < t ==> edge_on(
                            edges@,
                            out_node(p as int, tt - 1),
                            in_node(p as int, tt),
                        ),
                    t > horizon ==> edge_on(edges@, out_node(p as int, h), NodeId::Sink),
                    no_friendly(s, me, h) ==> forall|j: int|
                        0 <= j < edges@.len() ==> (#[trigger] edges@[j]).from != NodeId::Source,
                decreases horizon + 1 - t,
            {
                let ghost before = edges@;
                self.push_cell_base(state, &mut edges, p, t, horizon);
                let ghost mid = edges@;
                self.push_moves(state, &mut edges, p, t, horizon);
                proof {
                    if no_friendly(s, me, h) {
                        assert(s.spec_predict(p as int, t as int).0 != me);
                        assert forall|j: int| 0 <= j < edges@.len() implies (
                        #[trigger] edges@[j]).from != NodeId::Source by {
                            if j < before.len() {
                                assert(edges@[j] == before[j]);
                            } else if j < mid.len() {
                                assert(mid[j].from != NodeId::Source);
                                assert(edges@[j] == mid[j]);
                            }
                        }
                    }
                }
                proof {
                    assert(edges@ =~= graph_edges(s, me, p as int, h) + turn_edges(
                        s,
                        me,
                        p as int,
                        t as int + 1,
                        h,
                    ));
                }
                t = t + 1;
            }
            proof {
                assert(graph_edges(s, me, p as int + 1, h) == graph_edges(s, me, p as int, h)
                    + turn_edges(s, me, p as int, h + 1, h));
            }
            p = p + 1;
        }
        edges
    }
}

impl Flow1Algorithm {
    /// One full planning pass: build the time-expanded network from the
    /// current state, solve it, and read off this turn's orders.
    ///
    /// The orders are a function of the state alone (`spec_moves`), so
    /// planning is deterministic. Every emitted move carries at least one
    /// ship to a different planet. No planet is ordered to send more ships
    /// than its observed garrison: the solved flow leaving a planet's
    /// offset-zero departure node can only have entered through its arrival
    /// node, whose only supply is the source edge capped by the garrison.
    /// And with no planet ever predicted friendly, the network has no supply
    /// at all, so the pass orders nothing.
    pub fn calculate(&self, state: &State) -> (moves: Vec<Move>)
        requires
            state.wf(),
        ensures
            moves_view(moves@) == spec_moves(*state, self.id, LOOK_AHEAD as int),
            forall|pp: int|
                0 <= pp < state.num_planets() ==> moves_from(
                    moves@,
                    (#[trigger] state.planet_names@[pp])@,
                ) <= state.spec_predict(pp, 0).1,
            forall|k: int|
                0 <= k < moves@.len() ==> (#[trigger] moves@[k]).ship_count >= 1
                    && moves@[k].origin@ != moves@[k].destination@,
            no_friendly(*state, self.id, LOOK_AHEAD as int) ==> moves@.len() == 0,
    {
        let edges = self.build_graph(state, LOOK_AHEAD);
        let result = solve_min_cost_flow(&edges);
        let paths = result.1;
        proof {
            assert forall|ii: int| 0 <= ii < paths@.len() implies (#[trigger] paths@[ii]).amount
                >= 1 by {
                assert(path_wf(paths@[ii], edges@));
            }
        }
        let moves = extract_moves(&paths, &state.planet_names);
        proof {
            let h = LOOK_AHEAD as int;
            let sol = mcmf_solution(spec_graph(*state, self.id, h));
            assert(paths_view(paths@) == sol.1);
            assert(paths_view(paths@).len() == paths@.len());
            assert(names_views(state.planet_names@).len() == state.planet_names@.len());
            let n = state.num_planets();
            assert forall|pp: int| 0 <= pp < n implies moves_from(
                moves@,
                (#[trigger] state.planet_names@[pp])@,
            ) <= state.spec_predict(pp, 0).1 by {
                let v_out = out_node(pp, 0);
                let v_in = in_node(pp, 0);
                assert forall|j: int|
                    0 <= j < edges@.len() && (#[trigger] edges@[j]).to == v_out implies edges@[j].from
                    == v_in by {
                    assert(edge_shape_ok(edges@[j]));
                }
                assert forall|j: int|
                    0 <= j < edges@.len() && (#[trigger] edges@[j]).to == v_in implies edges@[j].from
                    == NodeId::Source by {
                    assert(edge_shape_ok(edges@[j]));
                }
                crate::flow::lemma_flow_conservation(paths@, edges@, v_out);
                crate::flow::lemma_flow_single_entry(paths@, edges@, v_out, v_in);
                crate::flow::lemma_flow_between_le_out(paths@, v_in, v_out);
                crate::flow::lemma_flow_conservation(paths@, edges@, v_in);
                crate::flow::lemma_flow_single_entry(paths@, edges@, v_in, NodeId::Source);
                assert(flow_between(paths@, NodeId::Source, v_in) <= cap_between(
                    edges@,
                    NodeId::Source,
                    v_in,
                ));
            }
            if no_friendly(*state, self.id, h) {
                assert(paths@.len() == 0);
                assert(moves_view(moves@).len() == 0);
            }
        }
        moves
    }
}

/// Read the orders off the solved decomposition: one move per hop that
/// departs from a planet's offset-zero departure node toward a different,
/// known planet, carrying the path's amount. The orders departing any one
/// planet never total more than the flow the decomposition sends out of that
/// planet's departure node.
pub fn extract_moves(paths: &Vec<SolvedPath>, planet_names: &Vec<PlanetName>) -> (moves: Vec<
    Move,
>)
    requires
        forall|i: int| 0 <= i < paths@.len() ==> (#[trigger] paths@[i]).amount >= 1,
        forall|a: int, b: int|
            0 <= a < b < planet_names@.len() ==> planet_names@[a]@ != planet_names@[b]@,
    ensures
        moves_view(moves@) == extract_paths(
            names_views(planet_names@),
            paths_view(paths@),
            paths@.len() as int,
        ),
        forall|pp: int|
            0 <= pp < planet_names@.len() ==> moves_from(moves@, (#[trigger] planet_names@[pp])@)
                <= flow_out_of(paths@, out_node(pp, 0)),
        forall|k: int|
            0 <= k < moves@.len() ==> (#[trigger] moves@[k]).ship_count >= 1 && moves@[k].origin@
                != moves@[k].destination@,
{
    let ghost namesv = names_views(planet_names@);
    let ghost pv = paths_view(paths@);
    let n: usize = planet_names.len();
    let mut moves: Vec<Move> = Vec::new();
    let pn: usize = paths.len();
    let mut i: usize = 0;
    while i < pn
        invariant
            pn == paths@.len(),
            0 <= i <= pn,
            n == planet_names@.len(),
            namesv == names_views(planet_names@),
            pv == paths_view(paths@),
            forall|ii: int| 0 <= ii < paths@.len() ==> (#[trigger] paths@[ii]).amount >= 1,
            forall|a: int, b: int|
                0 <= a < b < planet_names@.len() ==> planet_names@[a]@ != planet_names@[b]@,
            moves_view(moves@) == extract_paths(namesv, pv, i as int),
            forall|pp: int|
                0 <= pp < n ==> moves_from(moves@, (#[trigger] planet_names@[pp])@) <= flow_out_of(
                    paths@.take(i as int),
                    out_node(pp, 0),
                ),
            forall|k: int|
                0 <= k < moves@.len() ==> (#[trigger] moves@[k]).ship_count >= 1
                    && moves@[k].origin@ != moves@[k].destination@,
        decreases pn - i,
    {
        let amount: u32 = paths[i].amount;
        let hops_len: usize = paths[i].hops.len();
        let ghost hopsv = paths@[i as int].hops@;
        let ghost before = paths@.take(i as int);
        let mut k: usize = 0;
        while k < hops_len
            invariant
                pn == paths@.len(),
                0 <= i < pn,
                n == planet_names@.len(),
                namesv == names_views(planet_names@),
                pv == paths_view(paths@),
                forall|ii: int| 0 <= ii < paths@.len() ==> (#[trigger] paths@[ii]).amount >= 1,
                forall|a: int, b: int|
                    0 <= a < b < planet_names@.len() ==> planet_names@[a]@ != planet_names@[b]@,
                amount == paths@[i as int].amount,
                hopsv == paths@[i as int].hops@,
                before == paths@.take(i as int),
                hops_len == hopsv.len(),
                0 <= k <= hops_len,
                moves_view(moves@) == extract_paths(namesv, pv, i as int) + extract_hops(
                    namesv,
                    amount as int,
                    hopsv,
                    k as int,
                ),
                forall|pp: int|
                    0 <= pp < n ==> moves_from(moves@, (#[trigger] planet_names@[pp])@)
                        <= flow_out_of(before, out_node(pp, 0)) + amount
                        * crate::flow::hops_from(hopsv.take(k as int), out_node(pp, 0)),
                forall|kk: int|
                    0 <= kk < moves@.len() ==> (#[trigger] moves@[kk]).ship_count >= 1
                        && moves@[kk].origin@ != moves@[kk].destination@,
            decreases hops_len - k,
        {
            let hop: Hop = paths[i].hops[k];
            let ghost pre_moves = moves@;
            let mut emitted_origin: i32 = 0;
            let mut emitted: bool = false;
            match (hop.from, hop.to) {
                (
                    NodeId::Node { planet: a, turn: ta, phase: pa },
                    NodeId::Node { planet: b, turn: _tb, phase: _pb },
                ) => {
                    if pa == Phase::Departure && ta == 0 && a != b && 0 <= a && (a as usize) < n
                        && 0 <= b && (b as usize) < n {
                        let m = Move {
                            origin: planet_names[a as usize].clone(),
                            destination: planet_names[b as usize].clone(),
                            ship_count: amount as i64,
                        };
                        proof {
                            assert(planet_names@[a as int]@ != planet_names@[b as int]@);
                        }
                        moves.push(m);
                        emitted = true;
                        emitted_origin = a;
                    }
                },
                _ => {},
            }
            proof {
                assert(hopsv.take(k as int + 1) =~= hopsv.take(k as int).push(hop));
                let nn = namesv.len() as int;
                if emitted {
                    let a = emitted_origin as int;
                    let b = hop.to->planet as int;
                    assert(emit_hop(hop, nn) == Some((a, b)));
                    assert(namesv.len() == planet_names@.len());
                    assert(namesv[a] == planet_names@[a]@);
                    assert(namesv[b] == planet_names@[b]@);
                    let m = moves@.last();
                    assert(moves@ == pre_moves.push(m));
                    assert(move_view(m) == (namesv[a], namesv[b], amount as int));
                    assert(hopsv[k as int] == hop);
                    assert(moves_view(moves@) =~= moves_view(pre_moves).push(move_view(m)));
                    assert(extract_hops(namesv, amount as int, hopsv, k as int + 1)
                        =~= extract_hops(namesv, amount as int, hopsv, k as int).push(
                        move_view(m),
                    ));
                    assert(moves_view(moves@) =~= extract_paths(namesv, pv, i as int)
                        + extract_hops(namesv, amount as int, hopsv, k as int + 1));
                } else {
                    assert(emit_hop(hop, nn) is None);
                    assert(extract_hops(namesv, amount as int, hopsv, k as int + 1) =~= extract_hops(
                        namesv,
                        amount as int,
                        hopsv,
                        k as int,
                    ));
                }
                assert forall|pp: int| 0 <= pp < n implies moves_from(
                    moves@,
                    (#[trigger] planet_names@[pp])@,
                ) <= flow_out_of(before, out_node(pp, 0)) + amount * crate::flow::hops_from(
                    hopsv.take(k as int + 1),
                    out_node(pp, 0),
                ) by {
                    lemma_hops_from_push(hopsv.take(k as int), hop, out_node(pp, 0));
                    let oldf = crate::flow::hops_from(hopsv.take(k as int), out_node(pp, 0));
                    let newf = crate::flow::hops_from(hopsv.take(k as int + 1), out_node(pp, 0));
                    let c: int = if hop.from == out_node(pp, 0) {
                        1
                    } else {
                        0
                    };
                    assert(amount * newf == amount * oldf + amount * c) by (nonlinear_arith)
                        requires
                            newf == oldf + c,
                    ;
                    if emitted {
                        let m = moves@.last();
                        lemma_moves_from_push(pre_moves, m, planet_names@[pp]@);
                        if pp == emitted_origin as int {
                            assert(hop.from == out_node(pp, 0));
                            assert(m.origin@ == planet_names@[pp]@);
                        } else {
                            assert(m.origin@ == planet_names@[emitted_origin as int]@);
                            assert(m.origin@ != planet_names@[pp]@);
                        }
                    }
                }
            }
            k = k + 1;
        }
        proof {
            assert(hopsv.take(hops_len as int) =~= hopsv);
            assert(paths@.take(i as int + 1).drop_last() =~= before);
            assert(paths@.take(i as int + 1).last() == paths@[i as int]);
            assert(pv[i as int] == (amount as int, hopsv));
            assert(extract_paths(namesv, pv, i as int + 1) == extract_paths(namesv, pv, i as int)
                + extract_hops(namesv, amount as int, hopsv, hopsv.len() as int));
        }
        i = i + 1;
    }
    proof {
        assert(paths@.take(pn as int) =~= paths@);
    }
    moves
}

impl Flow1Algorithm {
    /// Desirability of capturing planet `planet_id` at offset `turns_ahead`,
    /// scaled by 1000, per `spec_score_scaled`.
    fn calculate_score(&self, planet_id: usize, turns_ahead: i64, state: &State) -> (r: i64)
        requires
            state.wf(),
            planet_id < state.num_planets(),
            0 <= turns_ahead <= MAX_TURNS,
        ensures
            r as int == spec_score_scaled(*state, self.id, planet_id as int, turns_ahead as int),
            -1_000_000_000_000_000_000 <= r <= 1_000_000_000_000_000_000,
    {
        let pred = state.predict_planet(turns_ahead, &planet_id);
        if owner_eq(pred.0, self.id) {
            return -3000;
        }
        let ghost pi = planet_id as int;
        let ghost ta = turns_ahead as int;
        let row = &state.nearest_planets[planet_id];
        let m: usize = row.len();
        let mut k: usize = 0;
        while k < m
            invariant
                state.wf(),
                planet_id < state.num_planets(),
                0 <= turns_ahead <= MAX_TURNS,
                row == &state.nearest_planets@[planet_id as int],
                m == row@.len(),
                0 <= k <= m,
                pi == planet_id as int,
                ta == turns_ahead as int,
                (pred.0, pred.1 as int) == state.spec_predict(pi, ta),
                pred.0 != self.id,
                0 <= pred.1 <= PREDICT_COUNT_BOUND,
                forall|j: int|
                    0 <= j < k ==> state.spec_predict((#[trigger] row@[j]).1 as int, turns_ahead as int).0
                        != self.id,
            decreases m - k,
        {
            proof {
                crate::geometry::lemma_row_element(
                    state.current_state.planets@,
                    planet_id as int,
                    row@,
                    k as int,
                );
            }
            let q: usize = row[k].1;
            let other = state.predict_planet(turns_ahead, &q);
            if owner_eq(other.0, self.id) {
                proof {
                    lemma_first_friendly_skip(
                        *state,
                        self.id,
                        row@,
                        turns_ahead as int,
                        k as int,
                    );
                    assert(first_friendly(*state, self.id, row@, turns_ahead as int, k as int)
                        == Some(row@[k as int]));
                }
                let d: u64 = row[k].0;
                proof {
                    assert(1 <= spec_dist(
                        state.current_state.planets@[planet_id as int],
                        state.current_state.planets@[q as int],
                    ) <= 3_000_000_000);
                    assert(1 <= d <= 3_000_000_000);
                }
                let diff_raw: i64 = other.1 - pred.1;
                let diff: i64 = if diff_raw > 1_000_000_000_000 {
                    1_000_000_000_000
                } else if diff_raw < -1_000_000_000_000 {
                    -1_000_000_000_000
                } else {
                    diff_raw
                };
                let di: i64 = d as i64;
                if diff >= 0 {
                    proof {
                        assert(0 <= (diff as int * 1_000_000) / (di as int) <= diff as int * 1_000_000) by (nonlinear_arith)
                            requires
                                di >= 1,
                                0 <= diff,
                        ;
                    }
                    return (diff * 1_000_000) / di;
                } else {
                    proof {
                        assert(0 <= ((-diff) as int * 1_000_000) / (di as int) <= (-diff) as int * 1_000_000)
                            by (nonlinear_arith)
                            requires
                                di >= 1,
                                0 <= -diff,
                        ;
                    }
                    return -(((-diff) * 1_000_000) / di);
                }
            }
            k = k + 1;
        }
        proof {
            lemma_first_friendly_skip(*state, self.id, row@, turns_ahead as int, m as int);
        }
        0
    }
}

} // verus!
