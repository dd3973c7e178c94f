use vstd::multiset::Multiset;
use vstd::prelude::*;

use crate::structs::{Planet, PlanetLocation, COORD_LIMIT};

verus! {

/// `r` is the integer square root of `n`.
pub open spec fn is_isqrt(n: int, r: int) -> bool {
    r >= 0 && r * r <= n < (r + 1) * (r + 1)
}

/// The integer square root, as a function.
pub open spec fn spec_isqrt(n: int) -> int {
    choose|r: int| is_isqrt(n, r)
}

/// Two integer square roots of the same number are equal.
pub proof fn lemma_isqrt_unique(n: int, r1: int, r2: int)
    requires
        is_isqrt(n, r1),
        is_isqrt(n, r2),
    ensures
        r1 == r2,
{
    if r1 < r2 {
        assert((r1 + 1) * (r1 + 1) <= r2 * r2) by (nonlinear_arith)
            requires
                0 <= r1 + 1 <= r2,
        ;
    }
    if r2 < r1 {
        assert((r2 + 1) * (r2 + 1) <= r1 * r1) by (nonlinear_arith)
            requires
                0 <= r2 + 1 <= r1,
        ;
    }
}

/// A witness pins `spec_isqrt` down.
pub proof fn lemma_isqrt_value(n: int, r: int)
    requires
        is_isqrt(n, r),
    ensures
        spec_isqrt(n) == r,
{
    assert(is_isqrt(n, spec_isqrt(n)));
    lemma_isqrt_unique(n, spec_isqrt(n), r);
}

/// Integer square root by bisection.
pub fn isqrt(n: u64) -> (r: u64)
    requires
        n <= 0x7000_0000_0000_0000,
    ensures
        is_isqrt(n as int, r as int),
        r == spec_isqrt(n as int),
        r <= 3_000_000_000,
{
    let mut lo: u64 = 0;
    let mut hi: u64 = 3_000_000_000;
    proof {
        assert((3_000_000_000int) * (3_000_000_000int) > n);
    }
    while lo + 1 < hi
        invariant
            lo < hi <= 3_000_000_000,
            lo * lo <= n,
            n < hi * hi,
        decreases hi - lo,
    {
        let mid: u64 = lo + (hi - lo) / 2;
        proof {
            assert(mid * mid <= 3_000_000_000u64 * 3_000_000_000u64) by (nonlinear_arith)
                requires
                    0 <= mid <= 3_000_000_000u64,
            ;
        }
        if mid * mid <= n {
            lo = mid;
        } else {
            hi = mid;
        }
    }
    proof {
        lemma_isqrt_value(n as int, lo as int);
    }
    lo
}

/// The distance between two in-bounds locations, in coordinate ticks: the
/// integer square root of the squared Euclidean distance.
pub open spec fn spec_dist_xy(a: PlanetLocation, b: PlanetLocation) -> int {
    spec_isqrt((a.x - b.x) * (a.x - b.x) + (a.y - b.y) * (a.y - b.y))
}

/// The distance between two planets, in coordinate ticks.
pub open spec fn spec_dist(a: Planet, b: Planet) -> int {
    spec_dist_xy(PlanetLocation { x: a.x, y: a.y }, PlanetLocation { x: b.x, y: b.y })
}

/// A location is within the accepted coordinate bounds.
pub open spec fn location_wf(l: PlanetLocation) -> bool {
    -COORD_LIMIT <= l.x <= COORD_LIMIT && -COORD_LIMIT <= l.y <= COORD_LIMIT
}

impl PlanetLocation {
    /// Euclidean distance to `other`, rounded down to whole coordinate ticks.
    pub fn distance(&self, other: &PlanetLocation) -> (r: u64)
        requires
            location_wf(*self),
            location_wf(*other),
        ensures
            r == spec_dist_xy(*self, *other),
            r <= 3_000_000_000,
    {
        let dx: i64 = self.x - other.x;
        let dy: i64 = self.y - other.y;
        proof {
            assert(0 <= dx * dx <= 4_000_000_000_000_000_000int) by (nonlinear_arith)
                requires
                    -2_000_000_000 <= dx <= 2_000_000_000,
            ;
            assert(0 <= dy * dy <= 4_000_000_000_000_000_000int) by (nonlinear_arith)
                requires
                    -2_000_000_000 <= dy <= 2_000_000_000,
            ;
        }
        let sq: i64 = dx * dx + dy * dy;
        isqrt(sq as u64)
    }
}

impl From<&Planet> for PlanetLocation {
    fn from(planet: &Planet) -> (r: Self) {
        PlanetLocation { x: planet.x, y: planet.y }
    }
}

impl vstd::std_specs::convert::FromSpecImpl<&Planet> for PlanetLocation {
    open spec fn obeys_from_spec() -> bool {
        true
    }

    open spec fn from_spec(planet: &Planet) -> PlanetLocation {
        PlanetLocation { x: planet.x, y: planet.y }
    }
}

/// The (distance, id) pairs of every planet with index below `m`, except
/// planet `i` itself, in index order.
pub open spec fn neighbor_pairs_upto(planets: Seq<Planet>, i: int, m: int) -> Seq<(u64, usize)>
    decreases m,
{
    if m <= 0 {
        Seq::empty()
    } else if m - 1 == i {
        neighbor_pairs_upto(planets, i, m - 1)
    } else {
        neighbor_pairs_upto(planets, i, m - 1).push(
            (spec_dist(planets[i], planets[m - 1]) as u64, (m - 1) as usize),
        )
    }
}

/// The (distance, id) pairs of every planet other than `i`: what planet `i`'s
/// neighbour list must hold, in some order.
pub open spec fn neighbor_pairs(planets: Seq<Planet>, i: int) -> Seq<(u64, usize)> {
    neighbor_pairs_upto(planets, i, planets.len() as int)
}

/// Shape of `neighbor_pairs_upto`: its length, and what each element is.
pub proof fn lemma_neighbor_pairs_shape(planets: Seq<Planet>, i: int, m: int)
    requires
        planets.len() <= usize::MAX,
        0 <= i < planets.len(),
        0 <= m <= planets.len(),
    ensures
        neighbor_pairs_upto(planets, i, m).len() == if i < m {
            m - 1
        } else {
            m
        },
        forall|k: int|
            0 <= k < neighbor_pairs_upto(planets, i, m).len() ==> {
                let e = #[trigger] neighbor_pairs_upto(planets, i, m)[k];
                &&& e.1 < m
                &&& e.1 != i
                &&& e.0 == spec_dist(planets[i], planets[e.1 as int]) as u64
            },
    decreases m,
{
    if m > 0 {
        lemma_neighbor_pairs_shape(planets, i, m - 1);
        let prev = neighbor_pairs_upto(planets, i, m - 1);
        let cur = neighbor_pairs_upto(planets, i, m);
        assert forall|k: int| 0 <= k < cur.len() implies {
            let e = #[trigger] cur[k];
            &&& e.1 < m
            &&& e.1 != i
            &&& e.0 == spec_dist(planets[i], planets[e.1 as int]) as u64
        } by {
            if m - 1 != i && k == cur.len() - 1 {
                assert(cur[k] == (spec_dist(planets[i], planets[m - 1]) as u64, (m - 1) as usize));
            } else {
                assert(cur[k] == prev[k]);
            }
        }
    }
}

/// Any element of a sequence whose multiset matches planet `i`'s neighbour
/// pairs is itself such a pair.
pub proof fn lemma_row_element(planets: Seq<Planet>, i: int, row: Seq<(u64, usize)>, k: int)
    requires
        planets.len() <= usize::MAX,
        0 <= i < planets.len(),
        row.to_multiset() == neighbor_pairs(planets, i).to_multiset(),
        0 <= k < row.len(),
    ensures
        row[k].1 < planets.len(),
        row[k].1 != i,
        row[k].0 == spec_dist(planets[i], planets[row[k].1 as int]) as u64,
{
    broadcast use vstd::seq_lib::group_to_multiset_ensures;

    let pairs = neighbor_pairs(planets, i);
    assert(row.to_multiset().count(row[k]) > 0);
    assert(pairs.contains(row[k]));
    let j = choose|j: int| 0 <= j < pairs.len() && pairs[j] == row[k];
    lemma_neighbor_pairs_shape(planets, i, planets.len() as int);
}

/// A sequence matching planet `i`'s neighbour pairs has one entry per other
/// planet.
pub proof fn lemma_row_len(planets: Seq<Planet>, i: int, row: Seq<(u64, usize)>)
    requires
        planets.len() <= usize::MAX,
        0 <= i < planets.len(),
        row.to_multiset() == neighbor_pairs(planets, i).to_multiset(),
    ensures
        row.len() == planets.len() - 1,
{
    broadcast use vstd::seq_lib::group_to_multiset_ensures;

    lemma_neighbor_pairs_shape(planets, i, planets.len() as int);
    assert(row.to_multiset().len() == row.len());
    assert(neighbor_pairs(planets, i).to_multiset().len() == neighbor_pairs(planets, i).len());
}

/// Neighbour pairs depend only on coordinates: two planet lists that agree on
/// every position have the same pairs.
pub proof fn lemma_neighbor_pairs_same_coords(a: Seq<Planet>, b: Seq<Planet>, i: int, m: int)
    requires
        a.len() == b.len(),
        forall|k: int|
            0 <= k < a.len() ==> (#[trigger] a[k]).x == b[k].x && a[k].y == (#[trigger] b[k]).y
                && a[k].x == b[k].x && a[k].y == b[k].y,
        0 <= i < a.len(),
        0 <= m <= a.len(),
    ensures
        neighbor_pairs_upto(a, i, m) == neighbor_pairs_upto(b, i, m),
    decreases m,
{
    if m > 0 {
        lemma_neighbor_pairs_same_coords(a, b, i, m - 1);
        if m - 1 != i {
            assert(spec_dist(a[i], a[m - 1]) == spec_dist(b[i], b[m - 1]));
        }
    }
}

/// Priority queue of (distance, planet id) pairs ordered by distance, used to
/// sort each planet's neighbour list. It holds a `priq::PriorityQueue`, which
/// Verus cannot read; `neighbour_queue_contents` names what it holds.
#[verifier::external_body]
pub struct NeighbourQueue {
    inner: priq::PriorityQueue<u64, usize>,
}

/// The pairs a `NeighbourQueue` holds.
pub uninterp spec fn neighbour_queue_contents(q: NeighbourQueue) -> Multiset<(u64, usize)>;

impl NeighbourQueue {
    /// Relies on `priq::PriorityQueue::new`: a new queue holds nothing.
    #[verifier::external_body]
    pub fn new() -> (r: NeighbourQueue)
        ensures
            neighbour_queue_contents(r) == Multiset::<(u64, usize)>::empty(),
    {
        NeighbourQueue { inner: priq::PriorityQueue::new() }
    }

    /// Relies on `priq::PriorityQueue::put`: adds one (score, item) pair.
    #[verifier::external_body]
    pub fn put(&mut self, score: u64, item: usize)
        ensures
            neighbour_queue_contents(*final(self)) == neighbour_queue_contents(*old(self)).insert(
                (score, item),
            ),
    {
        self.inner.put(score, item);
    }

    /// Relies on `priq::PriorityQueue::into_sorted_vec`: pops every pair, in
    /// ascending score order, leaving the queue empty.
    #[verifier::external_body]
    pub fn into_sorted_vec(&mut self) -> (r: Vec<(u64, usize)>)
        ensures
            r@.to_multiset() == neighbour_queue_contents(*old(self)),
            forall|a: int, b: int| 0 <= a <= b < r@.len() ==> #[trigger] r@[a].0 <= #[trigger] r@[b].0,
            neighbour_queue_contents(*final(self)) == Multiset::<(u64, usize)>::empty(),
    {
        self.inner.into_sorted_vec()
    }
}

} // verus!
