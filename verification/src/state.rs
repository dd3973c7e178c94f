use vstd::multiset::Multiset;
use vstd::prelude::*;

use crate::geometry::{neighbor_pairs, spec_dist};
use crate::id_set::IdSet;
use crate::structs::{planet_wf, spec_name_index, Expedition, GameSituation, Input, IntoPlanetId,
    Planet, PlanetId, PlanetName, PlayerId, MAX_SHIP_COUNT};
use crate::MAX_TURNS;

verus! {

/// Largest number of arrival deltas one (planet, turn) cell accepts; later
/// expeditions for a full cell are ignored. Together with `MAX_SHIP_COUNT`
/// this bounds every tally the predictor builds.
pub const MAX_DELTAS_PER_CELL: usize = 1000;

/// Every ship count the predictor computes stays below this bound.
pub const PREDICT_COUNT_BOUND: i64 = 1_000_000_000_000_000;

/// The arrival deltas recorded for one planet at one future turn: for each
/// arriving expedition, its owner and its ship count.
#[derive(Clone, Debug)]
pub struct StateCell {
    pub deltas: Vec<(PlayerId, i64)>,
}

/// The bounds an accepted cell keeps: few enough deltas, each with a ship
/// count in range.
pub open spec fn cell_deltas_wf(ds: Seq<(PlayerId, i64)>) -> bool {
    &&& ds.len() <= MAX_DELTAS_PER_CELL
    &&& forall|k: int| 0 <= k < ds.len() ==> 1 <= (#[trigger] ds[k]).1 <= MAX_SHIP_COUNT
}

/// Tie-break key when ranking tally buckets: neutral first, then players by
/// ascending id.
pub open spec fn owner_key(o: Option<PlayerId>) -> int {
    match o {
        None => -1,
        Some(id) => id as int,
    }
}

/// Total ship count of a delta sequence.
pub open spec fn deltas_total(ds: Seq<(PlayerId, i64)>) -> int
    decreases ds.len(),
{
    if ds.len() == 0 {
        0
    } else {
        deltas_total(ds.drop_last()) + ds.last().1
    }
}

/// Ship count the deltas contribute to owner `o`'s tally bucket.
pub open spec fn bucket_sum(ds: Seq<(PlayerId, i64)>, o: Option<PlayerId>) -> int
    decreases ds.len(),
{
    if ds.len() == 0 {
        0
    } else {
        bucket_sum(ds.drop_last(), o) + if Some(ds.last().0) == o {
            ds.last().1 as int
        } else {
            0
        }
    }
}

/// Owner `o`'s tally bucket: the seed state's ships if `o` is the seed owner,
/// plus every delta of `o`'s.
pub open spec fn bucket(
    seed_owner: Option<PlayerId>,
    seed_count: int,
    ds: Seq<(PlayerId, i64)>,
    o: Option<PlayerId>,
) -> int {
    (if o == seed_owner {
        seed_count
    } else {
        0
    }) + bucket_sum(ds, o)
}

/// Whether owner `o` has a tally bucket at all.
pub open spec fn present(seed_owner: Option<PlayerId>, ds: Seq<(PlayerId, i64)>, o: Option<
    PlayerId,
>) -> bool {
    o == seed_owner || exists|k: int| 0 <= k < ds.len() && Some((#[trigger] ds[k]).0) == o
}

/// Bucket (count `c1`, key `k1`) ranks at least as high as (`c2`, `k2`):
/// larger count first, lower owner key on ties.
pub open spec fn beats(c1: int, k1: int, c2: int, k2: int) -> bool {
    c1 > c2 || (c1 == c2 && k1 <= k2)
}

/// `o` is the highest-ranked present bucket, once `excl` (the already-chosen
/// top bucket, if any) is set aside.
pub open spec fn is_best(
    seed_owner: Option<PlayerId>,
    seed_count: int,
    ds: Seq<(PlayerId, i64)>,
    excl: Option<Option<PlayerId>>,
    o: Option<PlayerId>,
) -> bool {
    &&& present(seed_owner, ds, o)
    &&& Some(o) != excl
    &&& forall|o2: Option<PlayerId>|
        present(seed_owner, ds, o2) && Some(o2) != excl ==> beats(
            bucket(seed_owner, seed_count, ds, o),
            owner_key(o),
            bucket(seed_owner, seed_count, ds, o2),
            owner_key(o2),
        )
}

/// The tally holds no bucket besides the seed owner's.
pub open spec fn only_seed_present(seed_owner: Option<PlayerId>, ds: Seq<(PlayerId, i64)>) -> bool {
    forall|o: Option<PlayerId>| present(seed_owner, ds, o) ==> o == seed_owner
}

/// One step of combat resolution: seed the tally with the post-growth state,
/// add every arrival delta to its owner's bucket, then rank buckets. A lone
/// bucket keeps its ships; otherwise the two best buckets clash, the
/// difference survives, and a perfectly matched clash leaves the planet
/// neutral and empty.
pub open spec fn step_result(
    seed_owner: Option<PlayerId>,
    seed_count: int,
    ds: Seq<(PlayerId, i64)>,
) -> (Option<PlayerId>, int) {
    if only_seed_present(seed_owner, ds) {
        (seed_owner, bucket(seed_owner, seed_count, ds, seed_owner))
    } else {
        let top = choose|o: Option<PlayerId>| is_best(seed_owner, seed_count, ds, None, o);
        let sec = choose|o: Option<PlayerId>| is_best(seed_owner, seed_count, ds, Some(top), o);
        let diff = bucket(seed_owner, seed_count, ds, top) - bucket(seed_owner, seed_count, ds, sec);
        if diff == 0 {
            (None, 0)
        } else {
            (top, diff)
        }
    }
}

/// Appending a delta adds its ships to exactly its owner's bucket.
pub proof fn lemma_bucket_push(ds: Seq<(PlayerId, i64)>, d: (PlayerId, i64), o: Option<PlayerId>)
    ensures
        bucket_sum(ds.push(d), o) == bucket_sum(ds, o) + if Some(d.0) == o {
            d.1 as int
        } else {
            0
        },
        deltas_total(ds.push(d)) == deltas_total(ds) + d.1,
{
    assert(ds.push(d).drop_last() =~= ds);
}

/// Appending a delta makes exactly its owner newly present.
pub proof fn lemma_present_push(
    seed_owner: Option<PlayerId>,
    ds: Seq<(PlayerId, i64)>,
    d: (PlayerId, i64),
    o: Option<PlayerId>,
)
    ensures
        present(seed_owner, ds.push(d), o) <==> (present(seed_owner, ds, o) || o == Some(d.0)),
{
    if present(seed_owner, ds, o) && o != seed_owner {
        let k = choose|k: int| 0 <= k < ds.len() && Some(ds[k].0) == o;
        assert(Some(ds.push(d)[k].0) == o);
    }
    if o == Some(d.0) {
        assert(Some(ds.push(d)[ds.len() as int].0) == o);
    }
    if present(seed_owner, ds.push(d), o) && o != seed_owner && o != Some(d.0) {
        let k = choose|k: int| 0 <= k < ds.push(d).len() && Some(ds.push(d)[k].0) == o;
        assert(Some(ds[k].0) == o);
    }
}

/// With a non-negative seed and non-negative deltas, every bucket lies
/// between zero and the seed plus the deltas' total.
pub proof fn lemma_bucket_bounds(
    seed_owner: Option<PlayerId>,
    seed_count: int,
    ds: Seq<(PlayerId, i64)>,
    o: Option<PlayerId>,
)
    requires
        seed_count >= 0,
        forall|k: int| 0 <= k < ds.len() ==> (#[trigger] ds[k]).1 >= 0,
    ensures
        0 <= bucket(seed_owner, seed_count, ds, o),
        bucket(seed_owner, seed_count, ds, o) <= seed_count + deltas_total(ds),
        deltas_total(ds) >= 0,
    decreases ds.len(),
{
    if ds.len() > 0 {
        assert(forall|k: int|
            0 <= k < ds.drop_last().len() ==> (#[trigger] ds.drop_last()[k]).1 >= 0);
        lemma_bucket_bounds(seed_owner, seed_count, ds.drop_last(), o);
        assert(ds.last().1 >= 0);
    }
}

/// The total of an accepted cell's deltas is bounded.
pub proof fn lemma_deltas_total_bound(ds: Seq<(PlayerId, i64)>)
    requires
        cell_deltas_wf(ds),
    ensures
        0 <= deltas_total(ds) <= MAX_DELTAS_PER_CELL * MAX_SHIP_COUNT,
    decreases ds.len(),
{
    if ds.len() == 0 {
    } else {
        assert(cell_deltas_wf(ds.drop_last()));
        lemma_deltas_total_bound_helper(ds);
    }
}

proof fn lemma_deltas_total_bound_helper(ds: Seq<(PlayerId, i64)>)
    requires
        cell_deltas_wf(ds),
    ensures
        0 <= deltas_total(ds) <= ds.len() * MAX_SHIP_COUNT,
    decreases ds.len(),
{
    if ds.len() > 0 {
        assert(cell_deltas_wf(ds.drop_last()));
        lemma_deltas_total_bound_helper(ds.drop_last());
        assert(ds.len() * MAX_SHIP_COUNT == (ds.len() - 1) * MAX_SHIP_COUNT + MAX_SHIP_COUNT)
            by (nonlinear_arith);
    }
}

/// At most one bucket ranks highest: `beats` both ways forces equal counts
/// and equal keys, and the key identifies the owner.
pub proof fn lemma_best_unique(
    seed_owner: Option<PlayerId>,
    seed_count: int,
    ds: Seq<(PlayerId, i64)>,
    excl: Option<Option<PlayerId>>,
    o1: Option<PlayerId>,
    o2: Option<PlayerId>,
)
    requires
        is_best(seed_owner, seed_count, ds, excl, o1),
        is_best(seed_owner, seed_count, ds, excl, o2),
    ensures
        o1 == o2,
{
    assert(owner_key(o1) == owner_key(o2));
}

/// `a` ranks at least as high as `b` in the tally.
pub open spec fn entry_beats(a: (Option<PlayerId>, i64), b: (Option<PlayerId>, i64)) -> bool {
    beats(a.1 as int, owner_key(a.0), b.1 as int, owner_key(b.0))
}

/// Tie-break key as executable code.
fn owner_key_exec(o: Option<PlayerId>) -> (r: i64)
    ensures
        r as int == owner_key(o),
{
    match o {
        None => -1,
        Some(id) => id as i64,
    }
}

/// Whether two owners are the same.
pub fn owner_eq(a: Option<PlayerId>, b: Option<PlayerId>) -> (r: bool)
    ensures
        r == (a == b),
{
    match (a, b) {
        (None, None) => true,
        (Some(x), Some(y)) => x == y,
        _ => false,
    }
}

/// Resolve one turn's combat at one planet. The seed is the planet's
/// post-growth state; `deltas` are the expeditions arriving this turn. The
/// result is the surviving owner and ship count, per `step_result`.
pub fn resolve_combat(
    seed_owner: Option<PlayerId>,
    seed_count: i64,
    deltas: &Vec<(PlayerId, i64)>,
) -> (r: (Option<PlayerId>, i64))
    requires
        0 <= seed_count <= PREDICT_COUNT_BOUND,
        cell_deltas_wf(deltas@),
    ensures
        (r.0, r.1 as int) == step_result(seed_owner, seed_count as int, deltas@),
        0 <= r.1 <= seed_count + deltas_total(deltas@),
{
    let ghost all = deltas@;
    let mut entries: Vec<(Option<PlayerId>, i64)> = Vec::new();
    entries.push((seed_owner, seed_count));
    let dn: usize = deltas.len();
    let mut di: usize = 0;
    while di < dn
        invariant
            dn == all.len(),
            0 <= di <= dn,
            all == deltas@,
            0 <= seed_count <= PREDICT_COUNT_BOUND,
            cell_deltas_wf(all),
            entries@.len() >= 1,
            entries@[0].0 == seed_owner,
            forall|a: int, b: int|
                0 <= a < b < entries@.len() ==> (#[trigger] entries@[a]).0 != (
                #[trigger] entries@[b]).0,
            forall|a: int|
                0 <= a < entries@.len() ==> present(seed_owner, all.take(di as int), (
                #[trigger] entries@[a]).0),
            forall|a: int|
                0 <= a < entries@.len() ==> (#[trigger] entries@[a]).1 as int == bucket(
                    seed_owner,
                    seed_count as int,
                    all.take(di as int),
                    entries@[a].0,
                ),
            forall|o: Option<PlayerId>|
                #[trigger] present(seed_owner, all.take(di as int), o) ==> exists|a: int|
                    0 <= a < entries@.len() && (#[trigger] entries@[a]).0 == o,
        decreases dn - di,
    {
        let ghost pre = all.take(di as int);
        let ghost post = all.take(di as int + 1);
        let d: (PlayerId, i64) = deltas[di];
        proof {
            assert(post =~= pre.push(d));
            assert(cell_deltas_wf(pre));
            lemma_deltas_total_bound(pre);
        }
        // find the bucket for d's owner, if it exists
        let m: usize = entries.len();
        let mut j: usize = 0;
        let mut found: bool = false;
        while j < m
            invariant_except_break
                !found,
            invariant
                0 <= j <= m,
                m == entries@.len(),
                forall|k: int| 0 <= k < j ==> (#[trigger] entries@[k]).0 != Some(d.0),
            ensures
                found ==> 0 <= j < m && entries@[j as int].0 == Some(d.0),
                !found ==> forall|k: int| 0 <= k < m ==> (#[trigger] entries@[k]).0 != Some(d.0),
            decreases m - j,
        {
            if owner_eq(entries[j].0, Some(d.0)) {
                found = true;
                break ;
            }
            j = j + 1;
        }
        let ghost entries_pre = entries@;
        if found {
            let cur: (Option<PlayerId>, i64) = entries[j];
            proof {
                assert(forall|k: int| 0 <= k < pre.len() ==> (#[trigger] pre[k]).1 >= 0);
                lemma_bucket_bounds(seed_owner, seed_count as int, pre, cur.0);
            }
            entries.set(j, (cur.0, cur.1 + d.1));
            proof {
                assert(forall|a: int|
                    0 <= a < entries@.len() ==> (#[trigger] entries@[a]).0 == entries_pre[a].0);
            }
        } else {
            proof {
                assert(!present(seed_owner, pre, Some(d.0))) by {
                    if present(seed_owner, pre, Some(d.0)) {
                        let a = choose|a: int|
                            0 <= a < entries_pre.len() && entries_pre[a].0 == Some(d.0);
                        assert(false);
                    }
                }
                lemma_bucket_absent(seed_owner, pre, Some(d.0));
            }
            entries.push((Some(d.0), d.1));
        }
        proof {
            // how each bucket changed when d was appended
            assert forall|o: Option<PlayerId>| #[trigger]
                present(seed_owner, post, o) implies (present(seed_owner, pre, o) || o == Some(
                d.0,
            )) by {
                lemma_present_push(seed_owner, pre, d, o);
            }
            assert forall|o: Option<PlayerId>|
                present(seed_owner, pre, o) || o == Some(d.0) implies #[trigger] present(
                seed_owner,
                post,
                o,
            ) by {
                lemma_present_push(seed_owner, pre, d, o);
            }
            assert forall|a: int| 0 <= a < entries@.len() implies (#[trigger] entries@[a]).1
                as int == bucket(seed_owner, seed_count as int, post, entries@[a].0) by {
                lemma_bucket_push(pre, d, entries@[a].0);
                if a < entries_pre.len() {
                    if found && a == j {
                        assert(entries@[a].0 == Some(d.0));
                    } else {
                        assert(entries@[a].0 != Some(d.0));
                        assert(entries@[a] == entries_pre[a]);
                    }
                } else {
                    assert(entries@[a].0 == Some(d.0) && Some(d.0) != seed_owner);
                }
            }
            assert forall|a: int| 0 <= a < entries@.len() implies present(
                seed_owner,
                post,
                (#[trigger] entries@[a]).0,
            ) by {
                lemma_present_push(seed_owner, pre, d, entries@[a].0);
            }
            assert forall|o: Option<PlayerId>| #[trigger]
                present(seed_owner, post, o) implies exists|a: int|
                0 <= a < entries@.len() && (#[trigger] entries@[a]).0 == o by {
                if o == Some(d.0) {
                    if found {
                        assert(entries@[j as int].0 == o);
                    } else {
                        assert(entries@[entries@.len() - 1].0 == o);
                    }
                } else {
                    assert(present(seed_owner, pre, o));
                    let a = choose|a: int| 0 <= a < entries_pre.len() && entries_pre[a].0 == o;
                    assert(entries@[a].0 == o);
                }
            }
        }
        di = di + 1;
    }
    proof {
        assert(all.take(dn as int) =~= all);
    }
    // rank the buckets: find the best, then the runner-up
    let m: usize = entries.len();
    let mut best: usize = 0;
    let mut j: usize = 1;
    while j < m
        invariant
            1 <= j <= m,
            m == entries@.len(),
            0 <= best < j,
            forall|k: int| 0 <= k < j ==> entry_beats(entries@[best as int], #[trigger] entries@[k]),
        decreases m - j,
    {
        if entries[j].1 > entries[best].1 || (entries[j].1 == entries[best].1 && owner_key_exec(
            entries[j].0,
        ) < owner_key_exec(entries[best].0)) {
            best = j;
        }
        j = j + 1;
    }
    if m == 1 {
        proof {
            assert forall|o: Option<PlayerId>| present(seed_owner, all, o) implies o
                == seed_owner by {
                let a = choose|a: int| 0 <= a < entries@.len() && entries@[a].0 == o;
            }
            assert(only_seed_present(seed_owner, all));
        }
        let r = entries[0];
        proof {
            lemma_bucket_bounds(seed_owner, seed_count as int, all, r.0);
        }
        (r.0, r.1)
    } else {
        let mut sec: usize = if best == 0 {
            1
        } else {
            0
        };
        let mut j2: usize = 0;
        while j2 < m
            invariant
                0 <= j2 <= m,
                2 <= m == entries@.len(),
                0 <= best < m,
                0 <= sec < m,
                sec != best,
                forall|k: int|
                    0 <= k < j2 && k != best ==> entry_beats(
                        entries@[sec as int],
                        #[trigger] entries@[k],
                    ),
        decreases m - j2,
        {
            if j2 != best {
                if entries[j2].1 > entries[sec].1 || (entries[j2].1 == entries[sec].1
                    && owner_key_exec(entries[j2].0) < owner_key_exec(entries[sec].0)) {
                    sec = j2;
                }
            }
            j2 = j2 + 1;
        }
        let ghost top_o = entries@[best as int].0;
        let ghost sec_o = entries@[sec as int].0;
        proof {
            assert forall|o: Option<PlayerId>| present(seed_owner, all, o) implies beats(
                bucket(seed_owner, seed_count as int, all, top_o),
                owner_key(top_o),
                bucket(seed_owner, seed_count as int, all, o),
                owner_key(o),
            ) by {
                let a = choose|a: int| 0 <= a < entries@.len() && entries@[a].0 == o;
                assert(entry_beats(entries@[best as int], entries@[a]));
            }
            assert(is_best(seed_owner, seed_count as int, all, None, top_o));
            assert forall|o: Option<PlayerId>|
                present(seed_owner, all, o) && Some(o) != Some(top_o) implies beats(
                bucket(seed_owner, seed_count as int, all, sec_o),
                owner_key(sec_o),
                bucket(seed_owner, seed_count as int, all, o),
                owner_key(o),
            ) by {
                let a = choose|a: int| 0 <= a < entries@.len() && entries@[a].0 == o;
                assert(a != best);
                assert(entry_beats(entries@[sec as int], entries@[a]));
            }
            assert(is_best(seed_owner, seed_count as int, all, Some(top_o), sec_o));
            assert(!only_seed_present(seed_owner, all)) by {
                assert(present(seed_owner, all, entries@[1].0));
                assert(present(seed_owner, all, entries@[0].0));
                if entries@[0].0 == seed_owner && entries@[1].0 == seed_owner {
                    assert(false);
                }
            }
            let top = choose|o: Option<PlayerId>|
                is_best(seed_owner, seed_count as int, all, None, o);
            lemma_best_unique(seed_owner, seed_count as int, all, None, top, top_o);
            let s2 = choose|o: Option<PlayerId>|
                is_best(seed_owner, seed_count as int, all, Some(top), o);
            lemma_best_unique(seed_owner, seed_count as int, all, Some(top_o), s2, sec_o);
            lemma_bucket_bounds(seed_owner, seed_count as int, all, top_o);
            lemma_bucket_bounds(seed_owner, seed_count as int, all, sec_o);
        }
        let diff: i64 = entries[best].1 - entries[sec].1;
        if diff == 0 {
            (None, 0)
        } else {
            (entries[best].0, diff)
        }
    }
}

/// Largest number of planets a snapshot may hold.
pub const MAX_PLANETS: usize = 10_000;

/// The bot's whole memory: the current snapshot, the timeline ledger of
/// arrival deltas per (turn, planet), the set of expedition ids already
/// absorbed, the planet names in index order, the current turn, and for each
/// planet every other planet sorted by ascending distance.
pub struct State {
    pub state: Vec<Vec<StateCell>>,
    pub current_state: Input,
    pub saved_expeditions: IdSet,
    pub planet_names: Vec<PlanetName>,
    pub turn: i64,
    pub nearest_planets: Vec<Vec<(u64, PlanetId)>>,
}

impl State {
    pub open spec fn num_planets(self) -> int {
        self.planet_names@.len() as int
    }

    /// The ledger has one row per turn, one cell per planet, every cell in
    /// bounds.
    pub open spec fn cells_wf(self) -> bool {
        &&& self.state@.len() == MAX_TURNS
        &&& forall|t: int|
            0 <= t < MAX_TURNS ==> (#[trigger] self.state@[t])@.len() == self.num_planets()
        &&& forall|t: int, p: int|
            0 <= t < MAX_TURNS && 0 <= p < self.num_planets() ==> cell_deltas_wf(
                (#[trigger] self.state@[t]@[p]).deltas@,
            )
    }

    /// The snapshot lists one in-bounds planet per name, names in index order
    /// and pairwise distinct.
    pub open spec fn snapshot_wf(self) -> bool {
        &&& self.current_state.planets@.len() == self.num_planets()
        &&& forall|p: int|
            0 <= p < self.num_planets() ==> planet_wf(#[trigger] self.current_state.planets@[p])
        &&& forall|p: int|
            0 <= p < self.num_planets() ==> (#[trigger] self.current_state.planets@[p]).name@
                == self.planet_names@[p]@
        &&& forall|p: int, q: int|
            0 <= p < q < self.num_planets() ==> self.planet_names@[p]@ != self.planet_names@[q]@
    }

    /// Each planet's neighbour list holds every other planet exactly once,
    /// sorted by ascending distance, and no two planets coincide.
    pub open spec fn geometry_wf(self) -> bool {
        &&& self.nearest_planets@.len() == self.num_planets()
        &&& forall|i: int|
            0 <= i < self.num_planets() ==> (#[trigger] self.nearest_planets@[i])@.to_multiset()
                == neighbor_pairs(self.current_state.planets@, i).to_multiset()
        &&& forall|i: int, a: int, b: int|
            0 <= i < self.num_planets() && 0 <= a <= b < self.nearest_planets@[i]@.len() ==> (
            #[trigger] self.nearest_planets@[i]@[a]).0 <= (#[trigger] self.nearest_planets@[i]@[b]).0
        &&& forall|i: int, j: int|
            0 <= i < self.num_planets() && 0 <= j < self.num_planets() && i != j ==> 1 <= #[trigger]
                spec_dist(self.current_state.planets@[i], self.current_state.planets@[j])
                <= 3_000_000_000
    }

    pub open spec fn wf(self) -> bool {
        &&& self.num_planets() <= MAX_PLANETS
        &&& 0 <= self.turn <= MAX_TURNS
        &&& self.cells_wf()
        &&& self.snapshot_wf()
        &&& self.geometry_wf()
    }

    /// The arrival deltas for planet `p` at absolute turn `t`; empty outside
    /// the ledger.
    pub open spec fn spec_cell(self, t: int, p: int) -> Seq<(PlayerId, i64)> {
        if 0 <= t < self.state@.len() && 0 <= p < self.state@[t]@.len() {
            self.state@[t]@[p].deltas@
        } else {
            Seq::empty()
        }
    }

    /// The predicted (owner, ship count) of planet `p`, `ta` turns from now:
    /// seed from the observed state, then for each following turn grow owned
    /// planets by one ship and resolve the arrivals recorded in the ledger.
    pub open spec fn spec_predict(self, p: int, ta: int) -> (Option<PlayerId>, int)
        decreases ta,
    {
        if ta <= 0 {
            (
                self.current_state.planets@[p].owner,
                self.current_state.planets@[p].ship_count as int,
            )
        } else {
            let prev = self.spec_predict(p, ta - 1);
            let seed = if prev.0 is Some {
                prev.1 + 1
            } else {
                prev.1
            };
            step_result(prev.0, seed, self.spec_cell(self.turn + ta, p))
        }
    }

    /// Advance to the next turn.
    pub fn tick(&mut self)
        requires
            old(self).turn < MAX_TURNS,
        ensures
            final(self).turn == old(self).turn + 1,
            final(self).state == old(self).state,
            final(self).current_state == old(self).current_state,
            final(self).saved_expeditions == old(self).saved_expeditions,
            final(self).planet_names == old(self).planet_names,
            final(self).nearest_planets == old(self).nearest_planets,
    {
        self.turn = self.turn + 1;
    }

    /// The ledger cell a planet's arrivals at `turns_ahead` from now are
    /// recorded in.
    pub fn get_state_cell(&mut self, planet_name: &PlanetName, turns_ahead: i64) -> (r: &mut
        StateCell)
        requires
            old(self).wf(),
            crate::structs::spec_name_index(old(self).planet_names@, planet_name@) is Some,
            0 <= old(self).turn + turns_ahead < MAX_TURNS,
        ensures
            ({
                let p = crate::structs::spec_name_index(old(self).planet_names@, planet_name@);
                let t = old(self).turn + turns_ahead;
                &&& *r == old(self).state@[t]@[p.unwrap() as int]
                &&& final(self).state@.len() == old(self).state@.len()
                &&& forall|k: int|
                    0 <= k < old(self).state@.len() && k != t ==> final(self).state@[k] == old(
                        self,
                    ).state@[k]
                &&& final(self).state@[t]@ == old(self).state@[t]@.update(
                    p.unwrap() as int,
                    *final(r),
                )
                &&& final(self).current_state == old(self).current_state
                &&& final(self).saved_expeditions == old(self).saved_expeditions
                &&& final(self).planet_names == old(self).planet_names
                &&& final(self).nearest_planets == old(self).nearest_planets
                &&& final(self).turn == old(self).turn
            }),
    {
        let planet_index = crate::structs::find_name(&self.planet_names, planet_name).unwrap();
        let turn_index = (self.turn + turns_ahead) as usize;
        &mut self.state[turn_index][planet_index]
    }

    /// Predict every planet `turns_ahead` turns from now.
    pub fn predict_planets(&self, turns_ahead: i64) -> (r: Vec<(Option<PlayerId>, i64)>)
        requires
            self.wf(),
            0 <= turns_ahead <= MAX_TURNS,
        ensures
            r@.len() == self.num_planets(),
            forall|p: int|
                0 <= p < self.num_planets() ==> ((#[trigger] r@[p]).0, r@[p].1 as int)
                    == self.spec_predict(p, turns_ahead as int),
    {
        let mut return_vec: Vec<(Option<PlayerId>, i64)> = Vec::new();
        let n: usize = self.planet_names.len();
        let mut i: usize = 0;
        while i < n
            invariant
                self.wf(),
                0 <= turns_ahead <= MAX_TURNS,
                n == self.num_planets(),
                0 <= i <= n,
                return_vec@.len() == i,
                forall|p: int|
                    0 <= p < i ==> ((#[trigger] return_vec@[p]).0, return_vec@[p].1 as int)
                        == self.spec_predict(p, turns_ahead as int),
            decreases n - i,
        {
            let pred = self.predict_planet(turns_ahead, &i);
            return_vec.push(pred);
            i = i + 1;
        }
        return_vec
    }

    /// Predict one planet's (owner, ship count) `turns_ahead` turns from now,
    /// per `spec_predict`: owned planets grow one ship per turn, and each
    /// turn's recorded arrivals are resolved by `resolve_combat`.
    pub fn predict_planet<P: IntoPlanetId>(&self, turns_ahead: i64, into_planet_id: &P) -> (r: (
        Option<PlayerId>,
        i64,
    ))
        requires
            self.wf(),
            0 <= turns_ahead <= MAX_TURNS,
            into_planet_id.spec_planet_id(self.planet_names@) is Some,
            into_planet_id.spec_planet_id(self.planet_names@).unwrap() < self.num_planets(),
        ensures
            ({
                let p = into_planet_id.spec_planet_id(self.planet_names@).unwrap() as int;
                &&& (r.0, r.1 as int) == self.spec_predict(p, turns_ahead as int)
                &&& 0 <= r.1 <= PREDICT_COUNT_BOUND
            }),
    {
        let planet: usize = into_planet_id.into_planet_id(&self.planet_names).unwrap();
        let ghost p = planet as int;
        let mut owner: Option<PlayerId> = self.current_state.planets[planet].owner;
        let mut count: i64 = self.current_state.planets[planet].ship_count;
        let empty: Vec<(PlayerId, i64)> = Vec::new();
        let mut step: i64 = 0;
        while step < turns_ahead
            invariant
                self.wf(),
                0 <= turns_ahead <= MAX_TURNS,
                0 <= step <= turns_ahead,
                0 <= planet < self.num_planets(),
                p == planet as int,
                empty@ == Seq::<(PlayerId, i64)>::empty(),
                (owner, count as int) == self.spec_predict(p, step as int),
                0 <= count <= 1_000_000_000 + step * 1_000_000_000_001,
            decreases turns_ahead - step,
        {
            step = step + 1;
            let seed_count: i64 = if owner.is_some() {
                count + 1
            } else {
                count
            };
            let abs_turn: i64 = self.turn + step;
            let in_ledger: bool = abs_turn < MAX_TURNS as i64;
            let cell: &Vec<(PlayerId, i64)> = if in_ledger {
                &self.state[abs_turn as usize][planet].deltas
            } else {
                &empty
            };
            proof {
                assert(cell@ == self.spec_cell(self.turn + step, p));
                assert(cell_deltas_wf(cell@));
                lemma_deltas_total_bound(cell@);
            }
            let res = resolve_combat(owner, seed_count, cell);
            owner = res.0;
            count = res.1;
            proof {
                assert((owner, count as int) == self.spec_predict(p, step as int));
            }
        }
        (owner, count)
    }
}

/// Law: predicting zero turns ahead returns exactly the observed current
/// state of the planet.
pub proof fn lemma_predict_now(s: State, p: int)
    requires
        s.wf(),
        0 <= p < s.num_planets(),
    ensures
        s.spec_predict(p, 0) == (
            s.current_state.planets@[p].owner,
            s.current_state.planets@[p].ship_count as int,
        ),
{
}

/// Law: a planet that is owned `ta` turns from now, with no arrivals recorded
/// for the following turn, keeps its owner and grows by exactly one ship.
pub proof fn lemma_predict_growth(s: State, p: int, ta: int)
    requires
        s.wf(),
        0 <= p < s.num_planets(),
        0 <= ta,
        s.spec_predict(p, ta).0 is Some,
        s.spec_cell(s.turn + ta + 1, p).len() == 0,
    ensures
        s.spec_predict(p, ta + 1).0 == s.spec_predict(p, ta).0,
        s.spec_predict(p, ta + 1).1 == s.spec_predict(p, ta).1 + 1,
{
    let prev = s.spec_predict(p, ta);
    let ds = s.spec_cell(s.turn + ta + 1, p);
    let seed = prev.1 + 1;
    assert(only_seed_present(prev.0, ds)) by {
        assert forall|o: Option<PlayerId>| present(prev.0, ds, o) implies o == prev.0 by {
            if o != prev.0 {
                let k = choose|k: int| 0 <= k < ds.len() && Some(ds[k].0) == o;
            }
        }
    }
    assert(bucket(prev.0, seed, ds, prev.0) == seed);
    assert(s.spec_predict(p, ta + 1) == step_result(prev.0, seed, ds));
}

/// Largest expedition id the ledger accepts; the saved-id set is a bit set,
/// so ids bound how much memory it takes.
pub const MAX_EXPEDITION_ID: u64 = 0x1000000;

/// What a snapshot can be rejected for.
#[derive(Clone, Copy, Debug, PartialEq, Eq, Structural)]
pub enum StateError {
    TooManyPlanets,
    PlanetOutOfBounds,
    DuplicatePlanetName,
    DegenerateGeometry,
    PlanetCountMismatch,
    UnknownPlanet,
    PlanetMoved,
}

/// The ghost content of the ledger: per (turn, planet) the recorded deltas,
/// and the set of absorbed expedition ids.
pub struct LedgerView {
    pub cells: Seq<Seq<Seq<(PlayerId, i64)>>>,
    pub saved: Set<usize>,
}

/// The ledger of a fresh state: every cell empty, no id absorbed.
pub open spec fn empty_ledger_view(n: int) -> LedgerView {
    LedgerView {
        cells: Seq::new(MAX_TURNS as nat, |t: int| Seq::new(n as nat, |p: int| Seq::empty())),
        saved: Set::empty(),
    }
}

/// Whether expedition `e` is recorded into the ledger: unseen id in range,
/// known destination, arrival strictly in the future and inside the ledger
/// window, ship count in range, destination cell not full. The window bound
/// exists because the ledger has one fixed slot per game turn; the ship-count
/// and per-cell bounds keep every tally the predictor builds inside an `i64`;
/// the id bound keeps the saved-id bit set's memory small. A real game stays
/// far inside all four.
pub open spec fn view_absorbable(
    v: LedgerView,
    names: Seq<String>,
    turn: int,
    e: Expedition,
) -> bool {
    &&& e.id < MAX_EXPEDITION_ID
    &&& !v.saved.contains(e.id as usize)
    &&& spec_name_index(names, e.destination@) is Some
    &&& 0 < e.turns_remaining < MAX_TURNS
    &&& turn + e.turns_remaining < MAX_TURNS
    &&& 1 <= e.ship_count <= MAX_SHIP_COUNT
    &&& v.cells[turn + e.turns_remaining][spec_name_index(names, e.destination@).unwrap() as int].len()
        < MAX_DELTAS_PER_CELL
}

/// Absorb one expedition: append its delta to the destination cell at its
/// arrival turn and mark its id, or do nothing if it is not absorbable.
pub open spec fn view_absorb(
    v: LedgerView,
    names: Seq<String>,
    turn: int,
    e: Expedition,
) -> LedgerView {
    if view_absorbable(v, names, turn, e) {
        let t = turn + e.turns_remaining;
        let p = spec_name_index(names, e.destination@).unwrap() as int;
        LedgerView {
            cells: v.cells.update(
                t,
                v.cells[t].update(p, v.cells[t][p].push((e.owner, e.ship_count))),
            ),
            saved: v.saved.insert(e.id as usize),
        }
    } else {
        v
    }
}

/// Absorb a snapshot's expeditions in order.
pub open spec fn view_absorb_all(
    v: LedgerView,
    names: Seq<String>,
    turn: int,
    exps: Seq<Expedition>,
) -> LedgerView
    decreases exps.len(),
{
    if exps.len() == 0 {
        v
    } else {
        view_absorb(view_absorb_all(v, names, turn, exps.drop_last()), names, turn, exps.last())
    }
}

/// Law: absorption is exactly-once. Absorbing the same expedition a second
/// time changes nothing, because its id is in the saved set after the first
/// absorption.
pub proof fn lemma_absorb_exactly_once(v: LedgerView, names: Seq<String>, turn: int, e: Expedition)
    ensures
        view_absorb(view_absorb(v, names, turn, e), names, turn, e) == view_absorb(
            v,
            names,
            turn,
            e,
        ),
{
    if view_absorbable(v, names, turn, e) {
        let v1 = view_absorb(v, names, turn, e);
        assert(v1.saved.contains(e.id as usize));
    }
}

/// The names of a snapshot's planets, in snapshot order.
pub open spec fn input_names_view(input: Input) -> Seq<String> {
    input.planets@.map(|k: int, pl: Planet| pl.name)
}

/// Whether a later snapshot fits the state built from the first one: one
/// planet per known name, each within bounds and at its position from the first snapshot.
pub open spec fn snapshot_compatible(s: State, input: Input) -> bool {
    &&& input.planets@.len() == s.num_planets()
    &&& forall|p: int|
        0 <= p < s.num_planets() ==> {
            let j = spec_name_index(input_names_view(input), (#[trigger] s.planet_names@[p])@);
            &&& j is Some
            &&& planet_wf(input.planets@[j.unwrap() as int])
            &&& input.planets@[j.unwrap() as int].x == s.current_state.planets@[p].x
            &&& input.planets@[j.unwrap() as int].y == s.current_state.planets@[p].y
        }
}

/// Whether a first snapshot can seed a state: not too many planets, every
/// planet within bounds, names pairwise distinct, no two planets closer than
/// one coordinate tick.
pub open spec fn valid_first_snapshot(input: Input) -> bool {
    &&& input.planets@.len() <= MAX_PLANETS
    &&& forall|p: int| 0 <= p < input.planets@.len() ==> planet_wf(#[trigger] input.planets@[p])
    &&& forall|p: int, q: int|
        0 <= p < q < input.planets@.len() ==> (#[trigger] input.planets@[p]).name@ != (
        #[trigger] input.planets@[q]).name@
    &&& forall|i: int, j: int|
        0 <= i < input.planets@.len() && 0 <= j < input.planets@.len() && i != j ==> 1 <= #[trigger]
            spec_dist(input.planets@[i], input.planets@[j])
}

impl State {
    /// The ghost content of this state's ledger.
    pub open spec fn ledger_view(self) -> LedgerView {
        LedgerView {
            cells: Seq::new(
                self.state@.len(),
                |t: int| Seq::new(self.state@[t]@.len(), |p: int| self.state@[t]@[p].deltas@),
            ),
            saved: crate::id_set::id_set_contents(self.saved_expeditions),
        }
    }

    /// Record every newly seen expedition of a snapshot into the ledger,
    /// exactly once per id, skipping what cannot be recorded (unknown
    /// destination, arrival out of window, out-of-range values).
    pub fn absorb_expeditions(&mut self, exps: &Vec<Expedition>)
        requires
            old(self).wf(),
        ensures
            final(self).wf(),
            final(self).current_state == old(self).current_state,
            final(self).planet_names == old(self).planet_names,
            final(self).turn == old(self).turn,
            final(self).nearest_planets == old(self).nearest_planets,
            final(self).ledger_view() == view_absorb_all(
                old(self).ledger_view(),
                old(self).planet_names@,
                old(self).turn as int,
                exps@,
            ),
    {
        let ghost v0 = old(self).ledger_view();
        let ghost names = old(self).planet_names@;
        let ghost turn0 = old(self).turn as int;
        let en: usize = exps.len();
        let mut i: usize = 0;
        while i < en
            invariant
                en == exps@.len(),
                0 <= i <= en,
                self.wf(),
                self.current_state == old(self).current_state,
                self.planet_names == old(self).planet_names,
                self.turn == old(self).turn,
                self.nearest_planets == old(self).nearest_planets,
                names == old(self).planet_names@,
                turn0 == old(self).turn as int,
                self.ledger_view() == view_absorb_all(v0, names, turn0, exps@.take(i as int)),
            decreases en - i,
        {
            let ghost v_pre = self.ledger_view();
            let e = &exps[i];
            let mut absorbed: bool = false;
            if e.id < MAX_EXPEDITION_ID && !self.saved_expeditions.contains(e.id as usize) && 0
                < e.turns_remaining && e.turns_remaining < MAX_TURNS as i64 && 1 <= e.ship_count
                && e.ship_count <= MAX_SHIP_COUNT {
                let arrival: i64 = self.turn + e.turns_remaining;
                if arrival < MAX_TURNS as i64 {
                    match crate::structs::find_name(&self.planet_names, &e.destination) {
                        Some(p) => {
                            let t: usize = arrival as usize;
                            if self.state[t][p].deltas.len() < MAX_DELTAS_PER_CELL {
                                self.saved_expeditions.insert(e.id as usize);
                                self.state[t][p].deltas.push((e.owner, e.ship_count));
                                absorbed = true;
                                proof {
                                    assert(view_absorbable(v_pre, names, turn0, exps@[i as int]));
                                    assert(self.ledger_view().cells =~~= view_absorb(
                                        v_pre,
                                        names,
                                        turn0,
                                        exps@[i as int],
                                    ).cells);
                                }
                            }
                        },
                        None => {},
                    }
                }
            }
            proof {
                if !absorbed {
                    assert(!view_absorbable(v_pre, names, turn0, exps@[i as int]));
                    assert(self.ledger_view().cells =~~= v_pre.cells);
                }
                assert(self.ledger_view() == view_absorb(v_pre, names, turn0, exps@[i as int]));
                assert(exps@.take(i + 1).drop_last() =~= exps@.take(i as int));
                assert(exps@.take(i + 1).last() == exps@[i as int]);
            }
            i = i + 1;
        }
        proof {
            assert(exps@.take(en as int) =~= exps@);
        }
    }

    /// Take in a new turn's snapshot: absorb its expeditions into the ledger
    /// and replace the current planet states, matching planets to the known
    /// names. A snapshot that does not fit (wrong planet set, out-of-bounds
    /// values, moved planet) is rejected whole and the state is unchanged.
    pub fn update(&mut self, input: Input) -> (r: Result<(), StateError>)
        requires
            old(self).wf(),
        ensures
            final(self).wf(),
            final(self).turn == old(self).turn,
            final(self).planet_names == old(self).planet_names,
            final(self).nearest_planets == old(self).nearest_planets,
            r is Ok <==> snapshot_compatible(*old(self), input),
            r is Err ==> *final(self) == *old(self),
            r is Ok ==> final(self).ledger_view() == view_absorb_all(
                old(self).ledger_view(),
                old(self).planet_names@,
                old(self).turn as int,
                input.expeditions@,
            ),
            r is Ok ==> final(self).current_state.expeditions == input.expeditions,
            r is Ok ==> forall|p: int|
                0 <= p < old(self).num_planets() ==> final(self).current_state.planets@[p]
                    == input.planets@[spec_name_index(
                    input_names_view(input),
                    (#[trigger] old(self).planet_names@[p])@,
                ).unwrap() as int],
    {
        let n: usize = self.planet_names.len();
        if input.planets.len() != n {
            return Err(StateError::PlanetCountMismatch);
        }
        // names of the incoming snapshot, in its order
        let mut input_names: Vec<PlanetName> = Vec::new();
        let mut k: usize = 0;
        while k < n
            invariant
                n == input.planets@.len(),
                0 <= k <= n,
                input_names@.len() == k,
                forall|j: int| 0 <= j < k ==> input_names@[j] == input.planets@[j].name,
            decreases n - k,
        {
            input_names.push(input.planets[k].name.clone());
            k = k + 1;
        }
        proof {
            assert(input_names@ =~= input_names_view(input));
        }
        // match each known planet to the incoming snapshot and validate it
        let mut new_planets: Vec<Planet> = Vec::new();
        let mut p: usize = 0;
        while p < n
            invariant
                self == old(self),
                self.wf(),
                n == self.num_planets() == input.planets@.len(),
                input_names@ == input_names_view(input),
                0 <= p <= n,
                new_planets@.len() == p,
                forall|q: int|
                    0 <= q < p ==> {
                        let j = spec_name_index(
                            input_names_view(input),
                            (#[trigger] self.planet_names@[q])@,
                        );
                        &&& j is Some
                        &&& planet_wf(input.planets@[j.unwrap() as int])
                        &&& input.planets@[j.unwrap() as int].x
                            == self.current_state.planets@[q].x
                        &&& input.planets@[j.unwrap() as int].y
                            == self.current_state.planets@[q].y
                        &&& new_planets@[q] == input.planets@[j.unwrap() as int]
                    },
            decreases n - p,
        {
            match crate::structs::find_name(&input_names, &self.planet_names[p]) {
                None => {
                    return Err(StateError::UnknownPlanet);
                },
                Some(j) => {
                    let src = &input.planets[j];
                    if !(0 <= src.ship_count && src.ship_count <= MAX_SHIP_COUNT
                        && -crate::structs::COORD_LIMIT <= src.x && src.x
                        <= crate::structs::COORD_LIMIT && -crate::structs::COORD_LIMIT <= src.y
                        && src.y <= crate::structs::COORD_LIMIT) {
                        return Err(StateError::PlanetOutOfBounds);
                    }
                    if !(src.x == self.current_state.planets[p].x && src.y
                        == self.current_state.planets[p].y) {
                        return Err(StateError::PlanetMoved);
                    }
                    new_planets.push(
                        Planet {
                            ship_count: src.ship_count,
                            x: src.x,
                            y: src.y,
                            owner: src.owner,
                            name: src.name.clone(),
                        },
                    );
                },
            }
            p = p + 1;
        }
        self.absorb_expeditions(&input.expeditions);
        let ghost mid = *self;
        self.current_state = Input { planets: new_planets, expeditions: input.expeditions };
        proof {
            let nn = self.num_planets();
            assert forall|q: int| 0 <= q < nn implies planet_wf(
                #[trigger] self.current_state.planets@[q],
            ) && self.current_state.planets@[q].name@ == self.planet_names@[q]@
                && self.current_state.planets@[q].x == mid.current_state.planets@[q].x
                && self.current_state.planets@[q].y == mid.current_state.planets@[q].y by {
                crate::structs::lemma_name_index_some(
                    input_names_view(input),
                    self.planet_names@[q]@,
                );
            }
            lemma_wf_after_snapshot(mid, *self);
        }
        Ok(())
    }

    /// Build the bot's state from the first snapshot. Planet names and
    /// geometry are fixed here for the whole game; the ledger starts empty
    /// and then absorbs the snapshot's expeditions. A snapshot that cannot
    /// seed a state (out-of-bounds values, duplicate names, coinciding
    /// planets) is rejected: two planets at the same position would make
    /// transit times zero and leave the desirability score dividing by zero,
    /// so every pair must be at least one coordinate tick apart.
    pub fn new(input: Input) -> (r: Result<State, StateError>)
        ensures
            r is Ok <==> valid_first_snapshot(input),
            r matches Ok(st) ==> {
                &&& st.wf()
                &&& st.turn == 0
                &&& st.num_planets() == input.planets@.len()
                &&& st.current_state.planets == input.planets
                &&& st.current_state.expeditions == input.expeditions
                &&& forall|p: int|
                    0 <= p < input.planets@.len() ==> st.planet_names@[p] == (
                    #[trigger] input.planets@[p]).name
                &&& st.ledger_view() == view_absorb_all(
                    empty_ledger_view(input.planets@.len() as int),
                    st.planet_names@,
                    0,
                    input.expeditions@,
                )
            },
    {
        let n: usize = input.planets.len();
        if n > MAX_PLANETS {
            return Err(StateError::TooManyPlanets);
        }
        // validate each planet and collect names and positions
        let mut planet_names: Vec<PlanetName> = Vec::new();
        let mut planet_locations: Vec<crate::structs::PlanetLocation> = Vec::new();
        let mut i: usize = 0;
        while i < n
            invariant
                n == input.planets@.len(),
                n <= MAX_PLANETS,
                0 <= i <= n,
                planet_names@.len() == i,
                planet_locations@.len() == i,
                forall|p: int| 0 <= p < i ==> planet_names@[p] == (#[trigger] input.planets@[p]).name,
                forall|p: int| 0 <= p < i ==> planet_wf(#[trigger] input.planets@[p]),
                forall|p: int|
                    0 <= p < i ==> planet_locations@[p] == (crate::structs::PlanetLocation {
                        x: (#[trigger] input.planets@[p]).x,
                        y: input.planets@[p].y,
                    }),
                forall|p: int, q: int|
                    0 <= p < q < i ==> (#[trigger] input.planets@[p]).name@ != (
                    #[trigger] input.planets@[q]).name@,
            decreases n - i,
        {
            let pl = &input.planets[i];
            if !(0 <= pl.ship_count && pl.ship_count <= MAX_SHIP_COUNT
                && -crate::structs::COORD_LIMIT <= pl.x && pl.x <= crate::structs::COORD_LIMIT
                && -crate::structs::COORD_LIMIT <= pl.y && pl.y <= crate::structs::COORD_LIMIT) {
                return Err(StateError::PlanetOutOfBounds);
            }
            match crate::structs::find_name(&planet_names, &pl.name) {
                Some(j) => {
                    proof {
                        assert(input.planets@[j as int].name@ == input.planets@[i as int].name@);
                    }
                    return Err(StateError::DuplicatePlanetName);
                },
                None => {
                    proof {
                        crate::structs::lemma_name_index_none(planet_names@, pl.name@);
                    }
                },
            }
            planet_names.push(pl.name.clone());
            planet_locations.push(crate::structs::PlanetLocation { x: pl.x, y: pl.y });
            i = i + 1;
        }
        // sort each planet's neighbours by distance; reject coinciding planets
        let mut nearest_planets: Vec<Vec<(u64, PlanetId)>> = Vec::new();
        let mut i2: usize = 0;
        while i2 < n
            invariant
                n == input.planets@.len(),
                n <= MAX_PLANETS,
                0 <= i2 <= n,
                planet_locations@.len() == n,
                forall|p: int| 0 <= p < n ==> planet_wf(#[trigger] input.planets@[p]),
                forall|p: int|
                    0 <= p < n ==> planet_locations@[p] == (crate::structs::PlanetLocation {
                        x: (#[trigger] input.planets@[p]).x,
                        y: input.planets@[p].y,
                    }),
                nearest_planets@.len() == i2,
                forall|ii: int|
                    0 <= ii < i2 ==> (#[trigger] nearest_planets@[ii])@.to_multiset()
                        == crate::geometry::neighbor_pairs(input.planets@, ii).to_multiset(),
                forall|ii: int, a: int, b: int|
                    0 <= ii < i2 && 0 <= a <= b < nearest_planets@[ii]@.len() ==> (
                    #[trigger] nearest_planets@[ii]@[a]).0 <= (
                    #[trigger] nearest_planets@[ii]@[b]).0,
                forall|ii: int, j: int|
                    0 <= ii < i2 && 0 <= j < n && j != ii ==> 1 <= #[trigger] spec_dist(
                        input.planets@[ii],
                        input.planets@[j],
                    ) <= 3_000_000_000,
            decreases n - i2,
        {
            let mut queue = crate::geometry::NeighbourQueue::new();
            proof {
                broadcast use vstd::seq_lib::group_to_multiset_ensures;

                assert(crate::geometry::neighbor_pairs_upto(input.planets@, i2 as int, 0)
                    .to_multiset() =~= Multiset::<(u64, usize)>::empty());
            }
            let mut j: usize = 0;
            while j < n
                invariant
                    n == input.planets@.len(),
                    0 <= i2 < n,
                    0 <= j <= n,
                    planet_locations@.len() == n,
                    forall|p: int| 0 <= p < n ==> planet_wf(#[trigger] input.planets@[p]),
                    forall|p: int|
                        0 <= p < n ==> planet_locations@[p] == (crate::structs::PlanetLocation {
                            x: (#[trigger] input.planets@[p]).x,
                            y: input.planets@[p].y,
                        }),
                    crate::geometry::neighbour_queue_contents(queue)
                        == crate::geometry::neighbor_pairs_upto(
                        input.planets@,
                        i2 as int,
                        j as int,
                    ).to_multiset(),
                    forall|jj: int|
                        0 <= jj < j && jj != i2 ==> 1 <= #[trigger] spec_dist(
                            input.planets@[i2 as int],
                            input.planets@[jj],
                        ) <= 3_000_000_000,
                decreases n - j,
            {
                if j != i2 {
                    proof {
                        assert(planet_wf(input.planets@[i2 as int]));
                        assert(planet_wf(input.planets@[j as int]));
                        assert(planet_locations@[i2 as int] == (crate::structs::PlanetLocation {
                            x: input.planets@[i2 as int].x,
                            y: input.planets@[i2 as int].y,
                        }));
                        assert(planet_locations@[j as int] == (crate::structs::PlanetLocation {
                            x: input.planets@[j as int].x,
                            y: input.planets@[j as int].y,
                        }));
                    }
                    let d: u64 = planet_locations[i2].distance(&planet_locations[j]);
                    proof {
                        assert(d == spec_dist(input.planets@[i2 as int], input.planets@[j as int]));
                    }
                    if d == 0 {
                        proof {
                            assert(spec_dist(input.planets@[i2 as int], input.planets@[j as int])
                                == 0);
                        }
                        return Err(StateError::DegenerateGeometry);
                    }
                    queue.put(d, j);
                    proof {
                        broadcast use vstd::seq_lib::group_to_multiset_ensures;

                        assert(crate::geometry::neighbor_pairs_upto(
                            input.planets@,
                            i2 as int,
                            j + 1,
                        ) == crate::geometry::neighbor_pairs_upto(
                            input.planets@,
                            i2 as int,
                            j as int,
                        ).push((d, j as usize)));
                    }
                }
                j = j + 1;
            }
            let row = queue.into_sorted_vec();
            nearest_planets.push(row);
            i2 = i2 + 1;
        }
        // an empty ledger, one cell per (turn, planet)
        let mut state_vec: Vec<Vec<StateCell>> = Vec::new();
        let mut t: usize = 0;
        while t < MAX_TURNS
            invariant
                0 <= t <= MAX_TURNS,
                state_vec@.len() == t,
                forall|tt: int| 0 <= tt < t ==> (#[trigger] state_vec@[tt])@.len() == n,
                forall|tt: int, p: int|
                    0 <= tt < t && 0 <= p < n ==> (#[trigger] state_vec@[tt]@[p]).deltas@
                        =~= Seq::<(PlayerId, i64)>::empty(),
            decreases MAX_TURNS - t,
        {
            let mut row: Vec<StateCell> = Vec::new();
            let mut p: usize = 0;
            while p < n
                invariant
                    0 <= p <= n,
                    row@.len() == p,
                    forall|q: int|
                        0 <= q < p ==> (#[trigger] row@[q]).deltas@ =~= Seq::<(
                            PlayerId,
                            i64,
                        )>::empty(),
                decreases n - p,
            {
                row.push(StateCell { deltas: Vec::new() });
                p = p + 1;
            }
            state_vec.push(row);
            t = t + 1;
        }
        let mut st = State {
            state: state_vec,
            current_state: Input { planets: input.planets, expeditions: Vec::new() },
            saved_expeditions: IdSet::new(),
            planet_names,
            turn: 0,
            nearest_planets,
        };
        proof {
            assert(st.cells_wf());
            assert forall|p: int| 0 <= p < n implies (
            #[trigger] st.current_state.planets@[p]).name@ == st.planet_names@[p]@ by {
                assert(st.planet_names@[p] == input.planets@[p].name);
            }
            assert forall|p: int, q: int| 0 <= p < q < n implies st.planet_names@[p]@
                != st.planet_names@[q]@ by {
                assert(st.planet_names@[p] == input.planets@[p].name);
                assert(st.planet_names@[q] == input.planets@[q].name);
                assert(input.planets@[p].name@ != input.planets@[q].name@);
            }
            assert(st.snapshot_wf());
            assert(st.geometry_wf());
            assert(st.wf());
            assert(st.ledger_view().cells =~~= empty_ledger_view(n as int).cells);
            assert(st.ledger_view().saved =~= empty_ledger_view(n as int).saved);
            assert(st.ledger_view() == empty_ledger_view(n as int));
        }
        st.absorb_expeditions(&input.expeditions);
        st.current_state.expeditions = input.expeditions;
        Ok(st)
    }

    /// Is the game decided one turn out? The bot (player 1) has lost when no
    /// planet is predicted to be its, has won when some planet is its and no
    /// planet is any other player's, and otherwise the game goes on.
    pub fn check_gameover(&self) -> (r: GameSituation)
        requires
            self.wf(),
        ensures
            r == spec_game_situation(*self),
    {
        let predictions = self.predict_planets(1);
        let n: usize = predictions.len();
        let mut mine: bool = false;
        let mut enemy: bool = false;
        let mut p: usize = 0;
        while p < n
            invariant
                self.wf(),
                n == self.num_planets(),
                predictions@.len() == n,
                forall|q: int|
                    0 <= q < n ==> ((#[trigger] predictions@[q]).0, predictions@[q].1 as int)
                        == self.spec_predict(q, 1),
                0 <= p <= n,
                mine == exists|q: int| 0 <= q < p && (#[trigger] self.spec_predict(q, 1)).0 == Some(
                    1u8,
                ),
                enemy == exists|q: int|
                    0 <= q < p && ((#[trigger] self.spec_predict(q, 1)).0 is Some
                        && self.spec_predict(q, 1).0 != Some(1u8)),
            decreases n - p,
        {
            match predictions[p].0 {
                Some(id) => {
                    if id == 1 {
                        mine = true;
                    } else {
                        enemy = true;
                    }
                    proof {
                        assert(self.spec_predict(p as int, 1).0 == Some(id));
                    }
                },
                None => {},
            }
            p = p + 1;
        }
        if !mine {
            GameSituation::LOST
        } else if !enemy {
            GameSituation::WON
        } else {
            GameSituation::ONGOING
        }
    }
}

/// The game situation the bot reads off its one-turn prediction.
pub open spec fn spec_game_situation(s: State) -> GameSituation {
    let mine = exists|q: int|
        0 <= q < s.num_planets() && (#[trigger] s.spec_predict(q, 1)).0 == Some(1u8);
    let enemy = exists|q: int|
        0 <= q < s.num_planets() && ((#[trigger] s.spec_predict(q, 1)).0 is Some && s.spec_predict(
            q,
            1,
        ).0 != Some(1u8));
    if !mine {
        GameSituation::LOST
    } else if !enemy {
        GameSituation::WON
    } else {
        GameSituation::ONGOING
    }
}

/// Replacing the snapshot with planets of the same names and positions keeps
/// a state well-formed.
proof fn lemma_wf_after_snapshot(a: State, b: State)
    requires
        a.wf(),
        b.state == a.state,
        b.saved_expeditions == a.saved_expeditions,
        b.planet_names == a.planet_names,
        b.turn == a.turn,
        b.nearest_planets == a.nearest_planets,
        b.current_state.planets@.len() == a.num_planets(),
        forall|p: int|
            0 <= p < a.num_planets() ==> planet_wf(#[trigger] b.current_state.planets@[p]),
        forall|p: int|
            0 <= p < a.num_planets() ==> (#[trigger] b.current_state.planets@[p]).name@
                == b.planet_names@[p]@,
        forall|p: int|
            0 <= p < a.num_planets() ==> (#[trigger] b.current_state.planets@[p]).x
                == a.current_state.planets@[p].x && (#[trigger] b.current_state.planets@[p]).y
                == a.current_state.planets@[p].y,
    ensures
        b.wf(),
{
    assert forall|i: int| 0 <= i < b.num_planets() implies (
    #[trigger] b.nearest_planets@[i])@.to_multiset() == crate::geometry::neighbor_pairs(
        b.current_state.planets@,
        i,
    ).to_multiset() by {
        crate::geometry::lemma_neighbor_pairs_same_coords(
            a.current_state.planets@,
            b.current_state.planets@,
            i,
            a.current_state.planets@.len() as int,
        );
    }
    assert forall|i: int, j: int|
        0 <= i < b.num_planets() && 0 <= j < b.num_planets() && i != j implies 1 <= #[trigger]
        spec_dist(b.current_state.planets@[i], b.current_state.planets@[j]) <= 3_000_000_000 by {
        assert(spec_dist(b.current_state.planets@[i], b.current_state.planets@[j]) == spec_dist(
            a.current_state.planets@[i],
            a.current_state.planets@[j],
        ));
    }
}

/// An owner with no deltas and no bucket contributes nothing.
proof fn lemma_bucket_absent(
    seed_owner: Option<PlayerId>,
    ds: Seq<(PlayerId, i64)>,
    o: Option<PlayerId>,
)
    requires
        !present(seed_owner, ds, o),
    ensures
        bucket_sum(ds, o) == 0,
    decreases ds.len(),
{
    if ds.len() > 0 {
        assert(!present(seed_owner, ds.drop_last(), o)) by {
            if present(seed_owner, ds.drop_last(), o) {
                let k = choose|k: int|
                    0 <= k < ds.drop_last().len() && Some(ds.drop_last()[k].0) == o;
                assert(Some(ds[k].0) == o);
            }
        }
        lemma_bucket_absent(seed_owner, ds.drop_last(), o);
        assert(Some(ds[ds.len() - 1].0) != o);
    }
}

} // verus!
