use vstd::multiset::Multiset;
use vstd::prelude::*;

use crate::direct_flow::first_friendly;
use crate::geometry::{lemma_row_element, spec_dist};
use crate::state::{owner_eq, State, PREDICT_COUNT_BOUND};
use crate::structs::Move;

verus! {

/// How many turns ahead this planner reasons.
pub const LOOK_AHEAD: usize = 20;

/// A greedy single-target planner: score every (planet, turns-ahead) pair,
/// then walk the targets from the most promising down and send one
/// expedition to each from its nearest friendly planet, while ships last.
/// It consumes the same predictor as the flow planner but builds no network,
/// and it always plays player 1.
pub struct SimpleAlrorithm {}

/// Priority queue of (score, (planet, turns-ahead)) entries. It holds a
/// `priq::PriorityQueue`, which Verus cannot read; `score_queue_contents`
/// names what it holds.
#[verifier::external_body]
pub struct ScoreQueue {
    inner: priq::PriorityQueue<i64, (usize, usize)>,
}

/// The entries a `ScoreQueue` holds.
pub uninterp spec fn score_queue_contents(q: ScoreQueue) -> Multiset<(i64, (usize, usize))>;

impl ScoreQueue {
    /// Relies on `priq::PriorityQueue::new`: a new queue holds nothing.
    #[verifier::external_body]
    pub fn new() -> (r: ScoreQueue)
        ensures
            score_queue_contents(r) == Multiset::<(i64, (usize, usize))>::empty(),
    {
        ScoreQueue { inner: priq::PriorityQueue::new() }
    }

    /// Relies on `priq::PriorityQueue::put`: adds one (score, item) pair.
    #[verifier::external_body]
    pub fn put(&mut self, score: i64, item: (usize, usize))
        ensures
            score_queue_contents(*final(self)) == score_queue_contents(*old(self)).insert(
                (score, item),
            ),
    {
        self.inner.put(score, item);
    }

    /// Relies on `priq::PriorityQueue::into_sorted_vec`: pops every pair, in
    /// ascending score order, leaving the queue empty.
    #[verifier::external_body]
    pub fn into_sorted_vec(&mut self) -> (r: Vec<(i64, (usize, usize))>)
        ensures
            r@.to_multiset() == score_queue_contents(*old(self)),
            forall|a: int, b: int| 0 <= a <= b < r@.len() ==> #[trigger] r@[a].0 <= #[trigger] r@[b].0,
            score_queue_contents(*final(self)) == Multiset::<(i64, (usize, usize))>::empty(),
    {
        self.inner.into_sorted_vec()
    }
}

/// An entry the score queue may hold: a planet index and a turns-ahead offset
/// this planner can work with.
pub open spec fn entry_valid(s: State, e: (i64, (usize, usize))) -> bool {
    e.1.0 < s.num_planets() && e.1.1 < LOOK_AHEAD
}

/// Desirability of capturing planet `p` at offset `t`: ships the nearest
/// predicted-friendly planet has over the target's, less the transit time; a
/// fixed negative value for a planet already player 1's, zero with no
/// friendly planet in sight.
pub open spec fn spec_simple_score(s: State, p: int, t: int) -> int {
    if s.spec_predict(p, t).0 == Some(1u8) {
        -3
    } else {
        match first_friendly(s, Some(1u8), s.nearest_planets@[p]@, t, 0) {
            None => 0,
            Some(e) => s.spec_predict(e.1 as int, t).1 - s.spec_predict(p, t).1 - ((e.0 + 999)
                / 1000),
        }
    }
}

/// The queue entries for planet `p`'s offsets below `k`: one per offset,
/// keyed by its score.
pub open spec fn spec_planet_scores(s: State, p: int, k: int) -> Multiset<(i64, (usize, usize))>
    decreases k,
{
    if k <= 0 {
        Multiset::empty()
    } else {
        spec_planet_scores(s, p, k - 1).insert(
            (spec_simple_score(s, p, k - 1) as i64, (p as usize, (k - 1) as usize)),
        )
    }
}

/// The queue entries for the planets below `p`: one per (planet, offset)
/// pair, keyed by its score.
pub open spec fn spec_all_scores(s: State, p: int) -> Multiset<(i64, (usize, usize))>
    decreases p,
{
    if p <= 0 {
        Multiset::empty()
    } else {
        spec_all_scores(s, p - 1).add(spec_planet_scores(s, p - 1, LOOK_AHEAD as int))
    }
}

/// A planet's garrison counted for player 1: positive when predicted to be
/// player 1's, negative otherwise.
pub open spec fn spec_signed_count(s: State, p: int, t: int) -> int {
    if s.spec_predict(p, t).0 == Some(1u8) {
        s.spec_predict(p, t).1
    } else {
        -s.spec_predict(p, t).1
    }
}

/// The least signed garrison of planet `p` over the offsets below `k`: what
/// the planet can rely on keeping through the look-ahead window.
pub open spec fn spec_surplus(s: State, p: int, k: int) -> int
    decreases k,
{
    if k <= 1 {
        spec_signed_count(s, p, 0)
    } else {
        let rest = spec_surplus(s, p, k - 1);
        let v = spec_signed_count(s, p, k - 1);
        if v < rest {
            v
        } else {
            rest
        }
    }
}

/// The key an origin candidate is ranked by: transit time less garrison, so
/// that large garrisons close by rank first.
pub open spec fn spec_origin_key(s: State, e: (u64, usize), t: int) -> int {
    (e.0 + 999) / 1000 - s.spec_predict(e.1 as int, t).1
}

/// The best origin among the row's entries from position `k` on: the
/// predicted-friendly entry with the least key, the nearer entry winning
/// ties.
pub open spec fn spec_best_friendly(s: State, row: Seq<(u64, usize)>, t: int, k: int) -> Option<
    (u64, usize),
>
    decreases row.len() - k,
{
    if k < 0 || k >= row.len() {
        None
    } else {
        let rest = spec_best_friendly(s, row, t, k + 1);
        if s.spec_predict(row[k].1 as int, t).0 == Some(1u8) {
            match rest {
                None => Some(row[k]),
                Some(e) => if spec_origin_key(s, row[k], t) <= spec_origin_key(s, e, t) {
                    Some(row[k])
                } else {
                    Some(e)
                },
            }
        } else {
            rest
        }
    }
}

/// The nearest clearly hostile planet in the row, from position `k` on: the
/// first entry owned by another player. The rows are sorted by distance, so
/// the scan ends at the first entry ten distance units out or farther.
pub open spec fn spec_near_enemy(s: State, row: Seq<(u64, usize)>, t: int, k: int) -> Option<
    (u64, usize),
>
    decreases row.len() - k,
{
    if k < 0 || k >= row.len() {
        None
    } else if row[k].0 >= 10_000 {
        None
    } else if s.spec_predict(row[k].1 as int, t).0 is Some && s.spec_predict(row[k].1 as int, t).0
        != Some(1u8) {
        Some(row[k])
    } else {
        spec_near_enemy(s, row, t, k + 1)
    }
}

/// Ships the origin can spare for a target at offset `t`: its worst surplus
/// over the look-ahead window, less one ship to hold the planet, less the
/// fleet of a nearby hostile planet that pins the garrison at home (unless
/// that hostile planet is the target itself).
pub open spec fn spec_deployable(s: State, origin: int, dest: int, t: int) -> int {
    let base = spec_surplus(s, origin, LOOK_AHEAD as int) - 1;
    match spec_near_enemy(s, s.nearest_planets@[origin]@, t, 0) {
        Some(e) => if e.1 != dest {
            base - s.spec_predict(e.1 as int, t).1
        } else {
            base
        },
        None => base,
    }
}

/// What the target is expected to defend with when the ships land: its
/// current garrison, grown by one ship per transit turn when it is owned.
pub open spec fn spec_defence(s: State, dest: int, origin_dist: u64) -> int {
    let d0 = s.spec_predict(dest, 0);
    d0.1 + if d0.0 is Some {
        (origin_dist + 999) / 1000
    } else {
        0
    }
}

/// The moves one queue entry contributes: one expedition of the origin's
/// whole deployable fleet, and only when the origin has ships to spare and
/// they strictly beat the target's predicted defence.
pub open spec fn spec_entry_moves(s: State, entry: (i64, (usize, usize))) -> Seq<Move> {
    let dest = entry.1.0 as int;
    let t = entry.1.1 as int;
    match spec_best_friendly(s, s.nearest_planets@[dest]@, t, 0) {
        None => Seq::empty(),
        Some(orig) => {
            if spec_surplus(s, orig.1 as int, LOOK_AHEAD as int) <= 0 {
                Seq::empty()
            } else {
                let deployable = spec_deployable(s, orig.1 as int, dest, t);
                if spec_defence(s, dest, orig.0) < deployable {
                    seq![
                        (Move {
                            origin: s.planet_names@[orig.1 as int],
                            destination: s.planet_names@[dest],
                            ship_count: deployable as i64,
                        }),
                    ]
                } else {
                    Seq::empty()
                }
            }
        },
    }
}

/// The moves of a whole planning pass over the sorted score list: visit the
/// entries from position `idx - 1` down — from the best score down — and emit
/// each entry's moves; stop at the first non-positive score, or at the first
/// target with no predicted-friendly planet in sight.
pub open spec fn spec_walk(s: State, sv: Seq<(i64, (usize, usize))>, idx: int) -> Seq<Move>
    decreases idx,
{
    if idx <= 0 {
        Seq::empty()
    } else {
        let entry = sv[idx - 1];
        if entry.0 <= 0 {
            Seq::empty()
        } else {
            match spec_best_friendly(
                s,
                s.nearest_planets@[entry.1.0 as int]@,
                entry.1.1 as int,
                0,
            ) {
                None => Seq::empty(),
                Some(_) => spec_entry_moves(s, entry) + spec_walk(s, sv, idx - 1),
            }
        }
    }
}

impl SimpleAlrorithm {
    /// Desirability of capturing `planet_id` at `turns_ahead`, per
    /// `spec_simple_score`.
    fn calculate_score(&self, planet_id: usize, turns_ahead: i64, state: &State) -> (r: i64)
        requires
            state.wf(),
            planet_id < state.num_planets(),
            0 <= turns_ahead <= crate::MAX_TURNS,
        ensures
            r as int == spec_simple_score(*state, planet_id as int, turns_ahead as int),
    {
        let ghost pi = planet_id as int;
        let ghost ta = turns_ahead as int;
        let pred = state.predict_planet(turns_ahead, &planet_id);
        if owner_eq(pred.0, Some(1)) {
            return -3;
        }
        let row = &state.nearest_planets[planet_id];
        let m: usize = row.len();
        let mut k: usize = 0;
        while k < m
            invariant
                state.wf(),
                planet_id < state.num_planets(),
                0 <= turns_ahead <= crate::MAX_TURNS,
                pi == planet_id as int,
                ta == turns_ahead as int,
                row == &state.nearest_planets@[pi],
                m == row@.len(),
                0 <= k <= m,
                (pred.0, pred.1 as int) == state.spec_predict(pi, ta),
                pred.0 != Some(1u8),
                0 <= pred.1 <= PREDICT_COUNT_BOUND,
                first_friendly(*state, Some(1u8), row@, ta, 0) == first_friendly(
                    *state,
                    Some(1u8),
                    row@,
                    ta,
                    k as int,
                ),
            decreases m - k,
        {
            proof {
                lemma_row_element(state.current_state.planets@, pi, row@, k as int);
            }
            let q: usize = row[k].1;
            let other = state.predict_planet(turns_ahead, &q);
            if owner_eq(other.0, Some(1)) {
                let d: u64 = row[k].0;
                proof {
                    assert(1 <= spec_dist(
                        state.current_state.planets@[pi],
                        state.current_state.planets@[q as int],
                    ) <= 3_000_000_000);
                    assert(first_friendly(*state, Some(1u8), row@, ta, k as int) == Some(
                        row@[k as int],
                    ));
                }
                let delta: i64 = ((d + 999) / 1000) as i64;
                return (other.1 - pred.1) - delta;
            }
            proof {
                assert(first_friendly(*state, Some(1u8), row@, ta, k as int) == first_friendly(
                    *state,
                    Some(1u8),
                    row@,
                    ta,
                    k + 1,
                ));
            }
            k = k + 1;
        }
        0
    }

    /// Score every (planet, turns-ahead) pair into a queue: exactly one entry
    /// per pair, keyed by its score.
    fn calculate_scores(&self, state: &State) -> (r: ScoreQueue)
        requires
            state.wf(),
        ensures
            score_queue_contents(r) == spec_all_scores(*state, state.num_planets()),
            forall|e: (i64, (usize, usize))|
                score_queue_contents(r).count(e) > 0 ==> entry_valid(*state, e),
    {
        let mut queue = ScoreQueue::new();
        let n: usize = state.planet_names.len();
        let mut planet_id: usize = 0;
        while planet_id < n
            invariant
                state.wf(),
                n == state.num_planets(),
                0 <= planet_id <= n,
                score_queue_contents(queue) == spec_all_scores(*state, planet_id as int),
                forall|e: (i64, (usize, usize))|
                    score_queue_contents(queue).count(e) > 0 ==> entry_valid(*state, e),
            decreases n - planet_id,
        {
            let mut turns_ahead: usize = 0;
            while turns_ahead < LOOK_AHEAD
                invariant
                    state.wf(),
                    n == state.num_planets(),
                    0 <= planet_id < n,
                    0 <= turns_ahead <= LOOK_AHEAD,
                    score_queue_contents(queue) == spec_all_scores(*state, planet_id as int).add(
                        spec_planet_scores(*state, planet_id as int, turns_ahead as int),
                    ),
                    forall|e: (i64, (usize, usize))|
                        score_queue_contents(queue).count(e) > 0 ==> entry_valid(*state, e),
                decreases LOOK_AHEAD - turns_ahead,
            {
                let score: i64 = self.calculate_score(planet_id, turns_ahead as i64, state);
                queue.put(score, (planet_id, turns_ahead));
                proof {
                    assert(score_queue_contents(queue) =~= spec_all_scores(
                        *state,
                        planet_id as int,
                    ).add(spec_planet_scores(*state, planet_id as int, turns_ahead + 1)));
                }
                turns_ahead = turns_ahead + 1;
            }
            proof {
                assert(score_queue_contents(queue) =~= spec_all_scores(*state, planet_id + 1));
            }
            planet_id = planet_id + 1;
        }
        proof {
            assert(score_queue_contents(queue) =~= spec_all_scores(*state, n as int).add(
                Multiset::empty(),
            ));
            assert(score_queue_contents(queue) =~= spec_all_scores(*state, n as int));
        }
        queue
    }

    /// One planning pass, per `spec_walk` over some ascending arrangement of
    /// the scored (planet, offset) pairs: walk the targets from the best
    /// score down; for each, pick the nearest predicted-friendly planet as
    /// origin and send its whole deployable fleet when that strictly beats
    /// the target's predicted defence; stop at the first non-positive score
    /// or the first target with no friendly planet in sight. The arrangement
    /// of equal scores is the queue's to choose, so it is existentially
    /// quantified. Every emitted move carries at least one ship between two
    /// distinct known planets.
    pub fn calculate(&self, state: &State) -> (moves: Vec<Move>)
        requires
            state.wf(),
        ensures
            exists|sv: Seq<(i64, (usize, usize))>|
                {
                    &&& sv.to_multiset() == spec_all_scores(*state, state.num_planets())
                    &&& (forall|a: int, b: int|
                        0 <= a <= b < sv.len() ==> (#[trigger] sv[a]).0 <= (#[trigger] sv[b]).0)
                    &&& moves@ == spec_walk(*state, sv, sv.len() as int)
                },
            forall|k: int|
                0 <= k < moves@.len() ==> (#[trigger] moves@[k]).ship_count >= 1
                    && moves@[k].origin@ != moves@[k].destination@,
    {
        let ghost s = *state;
        let mut moves: Vec<Move> = Vec::new();
        let mut queue = self.calculate_scores(state);
        let sorted = queue.into_sorted_vec();
        let ghost sv = sorted@;
        let n: usize = state.planet_names.len();
        let mut idx: usize = sorted.len();
        proof {
            assert(moves@ + spec_walk(s, sv, idx as int) =~= spec_walk(s, sv, sv.len() as int));
        }
        while idx > 0
            invariant_except_break
                moves@ + spec_walk(s, sv, idx as int) == spec_walk(s, sv, sv.len() as int),
            invariant
                state.wf(),
                s == *state,
                n == state.num_planets(),
                sv == sorted@,
                sv.to_multiset() == spec_all_scores(s, n as int),
                forall|e: (i64, (usize, usize))|
                    sv.to_multiset().count(e) > 0 ==> entry_valid(s, e),
                0 <= idx <= sv.len(),
                forall|k: int|
                    0 <= k < moves@.len() ==> (#[trigger] moves@[k]).ship_count >= 1
                        && moves@[k].origin@ != moves@[k].destination@,
            ensures
                moves@ == spec_walk(s, sv, sv.len() as int),
                forall|k: int|
                    0 <= k < moves@.len() ==> (#[trigger] moves@[k]).ship_count >= 1
                        && moves@[k].origin@ != moves@[k].destination@,
            decreases idx,
        {
            let ghost remaining = idx as int;
            idx = idx - 1;
            proof {
                broadcast use vstd::seq_lib::group_to_multiset_ensures;

                assert(sv.contains(sv[idx as int]));
                assert(sv.to_multiset().count(sv[idx as int]) > 0);
                assert(entry_valid(s, sv[idx as int]));
            }
            let entry: (i64, (usize, usize)) = sorted[idx];
            let score: i64 = entry.0;
            if score <= 0 {
                proof {
                    assert(spec_walk(s, sv, remaining) =~= Seq::<Move>::empty());
                    assert(moves@ =~= moves@ + spec_walk(s, sv, remaining));
                }
                break ;
            }
            let destination_planet_id: usize = entry.1.0;
            let turns_ahead: usize = entry.1.1;
            let ghost dest = destination_planet_id as int;
            let ghost ta = turns_ahead as int;
            // the nearest predicted-friendly planet, preferring large
            // garrisons close by
            let row = &state.nearest_planets[destination_planet_id];
            let m: usize = row.len();
            let mut cand: Option<(u64, usize)> = None;
            let mut cand_key: i64 = 0;
            let mut k: usize = m;
            while k > 0
                invariant
                    state.wf(),
                    s == *state,
                    n == state.num_planets(),
                    0 <= dest < n,
                    dest == destination_planet_id as int,
                    0 <= ta < LOOK_AHEAD,
                    ta == turns_ahead as int,
                    row == &state.nearest_planets@[dest],
                    m == row@.len(),
                    0 <= k <= m,
                    cand == spec_best_friendly(s, row@, ta, k as int),
                    cand matches Some(e) ==> {
                        &&& cand_key as int == spec_origin_key(s, e, ta)
                        &&& e.1 < n
                        &&& e.1 != dest
                        &&& 1 <= e.0 <= 3_000_000_000
                    },
                decreases k,
            {
                k = k - 1;
                proof {
                    lemma_row_element(state.current_state.planets@, dest, row@, k as int);
                    assert(1 <= spec_dist(
                        state.current_state.planets@[dest],
                        state.current_state.planets@[row@[k as int].1 as int],
                    ) <= 3_000_000_000);
                }
                let q: usize = row[k].1;
                let o = state.predict_planet(turns_ahead as i64, &q);
                if owner_eq(o.0, Some(1)) {
                    let key: i64 = ((row[k].0 + 999) / 1000) as i64 - o.1;
                    match cand {
                        None => {
                            cand = Some(row[k]);
                            cand_key = key;
                        },
                        Some(_) => {
                            if key <= cand_key {
                                cand = Some(row[k]);
                                cand_key = key;
                            }
                        },
                    }
                }
            }
            let origin_pair: (u64, usize) = match cand {
                None => {
                    proof {
                        assert(spec_walk(s, sv, remaining) =~= Seq::<Move>::empty());
                        assert(moves@ =~= moves@ + spec_walk(s, sv, remaining));
                    }
                    break ;
                },
                Some(e) => e,
            };
            let origin_planet_id: usize = origin_pair.1;
            let origin_distance: u64 = origin_pair.0;
            let ghost origin = origin_planet_id as int;
            // the least surplus the origin keeps over the look-ahead window
            let o0 = state.predict_planet(0, &origin_planet_id);
            let mut surplus: i64 = if owner_eq(o0.0, Some(1)) {
                o0.1
            } else {
                -o0.1
            };
            let mut ta2: usize = 1;
            while ta2 < LOOK_AHEAD
                invariant
                    state.wf(),
                    s == *state,
                    n == state.num_planets(),
                    0 <= origin < n,
                    origin == origin_planet_id as int,
                    1 <= ta2 <= LOOK_AHEAD,
                    surplus as int == spec_surplus(s, origin, ta2 as int),
                    -PREDICT_COUNT_BOUND <= surplus <= PREDICT_COUNT_BOUND,
                decreases LOOK_AHEAD - ta2,
            {
                let o = state.predict_planet(ta2 as i64, &origin_planet_id);
                let value: i64 = if owner_eq(o.0, Some(1)) {
                    o.1
                } else {
                    -o.1
                };
                if value < surplus {
                    surplus = value;
                }
                ta2 = ta2 + 1;
            }
            if surplus <= 0 {
                proof {
                    assert(spec_entry_moves(s, sv[idx as int]) =~= Seq::<Move>::empty());
                    assert(moves@ + spec_walk(s, sv, remaining) =~= moves@ + spec_walk(
                        s,
                        sv,
                        idx as int,
                    ));
                }
                continue ;
            }
            let mut deployable: i64 = surplus - 1;
            // a nearby hostile planet pins part of the garrison at home
            let origin_row = &state.nearest_planets[origin_planet_id];
            let om: usize = origin_row.len();
            let mut ok: usize = 0;
            let mut enemy: Option<(u64, usize)> = None;
            while ok < om
                invariant_except_break
                    enemy is None,
                    spec_near_enemy(s, origin_row@, ta, 0) == spec_near_enemy(
                        s,
                        origin_row@,
                        ta,
                        ok as int,
                    ),
                invariant
                    state.wf(),
                    s == *state,
                    n == state.num_planets(),
                    0 <= origin < n,
                    origin == origin_planet_id as int,
                    0 <= ta < LOOK_AHEAD,
                    ta == turns_ahead as int,
                    origin_row == &state.nearest_planets@[origin],
                    om == origin_row@.len(),
                    0 <= ok <= om,
                ensures
                    enemy == spec_near_enemy(s, origin_row@, ta, 0),
                    enemy matches Some(e) ==> e.1 < n,
                decreases om - ok,
            {
                proof {
                    lemma_row_element(state.current_state.planets@, origin, origin_row@, ok as int);
                }
                let pair: (u64, usize) = origin_row[ok];
                if pair.0 >= 10_000 {
                    proof {
                        assert(spec_near_enemy(s, origin_row@, ta, ok as int) is None);
                    }
                    break ;
                }
                let o = state.predict_planet(turns_ahead as i64, &pair.1);
                let hostile: bool = match o.0 {
                    Some(pid) => pid != 1,
                    None => false,
                };
                if hostile {
                    enemy = Some(pair);
                    proof {
                        assert(spec_near_enemy(s, origin_row@, ta, ok as int) == Some(
                            origin_row@[ok as int],
                        ));
                    }
                    break ;
                }
                proof {
                    assert(spec_near_enemy(s, origin_row@, ta, ok as int) == spec_near_enemy(
                        s,
                        origin_row@,
                        ta,
                        ok + 1,
                    ));
                }
                ok = ok + 1;
            }
            match enemy {
                Some(e) => {
                    if e.1 != destination_planet_id {
                        let ef = state.predict_planet(turns_ahead as i64, &e.1);
                        deployable = deployable - ef.1;
                    }
                },
                None => {},
            }
            proof {
                assert(deployable as int == spec_deployable(s, origin, dest, ta));
            }
            // does the attack beat the target's predicted defence?
            let d0 = state.predict_planet(0, &destination_planet_id);
            let mut predicted_destination: i64 = d0.1;
            if d0.0.is_some() {
                predicted_destination = predicted_destination + ((origin_distance + 999) / 1000)
                    as i64;
            }
            proof {
                assert(predicted_destination as int == spec_defence(s, dest, origin_distance));
            }
            if predicted_destination < deployable {
                let m2 = Move {
                    origin: state.planet_names[origin_planet_id].clone(),
                    destination: state.planet_names[destination_planet_id].clone(),
                    ship_count: deployable,
                };
                proof {
                    assert(state.planet_names@[origin]@ != state.planet_names@[dest]@);
                    assert(spec_entry_moves(s, sv[idx as int]) =~= seq![m2]);
                }
                moves.push(m2);
                proof {
                    assert(moves@ + spec_walk(s, sv, idx as int) =~= spec_walk(
                        s,
                        sv,
                        sv.len() as int,
                    ));
                }
            } else {
                proof {
                    assert(spec_entry_moves(s, sv[idx as int]) =~= Seq::<Move>::empty());
                    assert(moves@ + spec_walk(s, sv, remaining) =~= moves@ + spec_walk(
                        s,
                        sv,
                        idx as int,
                    ));
                }
            }
        }
        moves
    }
}

} // verus!
