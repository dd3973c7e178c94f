use vstd::prelude::*;

verus! {

/// Outcome of a game-over check: the bot has won, lost, or the game goes on.
#[allow(non_camel_case_types)]
#[derive(Clone, Copy, Debug, PartialEq, Eq, Structural)]
pub enum GameSituation {
    WON,
    LOST,
    ONGOING,
}

pub type PlanetName = String;

pub type ExpeditionId = u64;

pub type PlayerId = u8;

pub type PlanetId = usize;

/// Largest ship count accepted on a planet or an expedition; snapshots with
/// larger values are rejected so that every tally the predictor builds fits
/// comfortably in an `i64`.
pub const MAX_SHIP_COUNT: i64 = 1_000_000_000;

/// Coordinates are fixed-point: one unit of game distance is 1000 ticks.
/// Snapshots whose coordinates exceed this bound are rejected, which keeps
/// every squared distance inside a `u64`.
pub const COORD_LIMIT: i64 = 1_000_000_000;

/// One snapshot of the game: every planet, and every fleet still in flight.
#[derive(Clone, Debug)]
pub struct Input {
    pub planets: Vec<Planet>,
    pub expeditions: Vec<Expedition>,
}

/// A planet as seen in one snapshot. `x` and `y` are fixed-point coordinates
/// in thousandths of a game-distance unit; `owner` is `None` for a neutral
/// planet.
#[derive(Clone, Debug)]
pub struct Planet {
    pub ship_count: i64,
    pub x: i64,
    pub y: i64,
    pub owner: Option<PlayerId>,
    pub name: PlanetName,
}

/// A planet's position, in the same fixed-point coordinates as `Planet`.
#[derive(Clone, Copy, Debug, PartialEq, Eq, Structural)]
pub struct PlanetLocation {
    pub x: i64,
    pub y: i64,
}

/// The bounds a planet must satisfy to be accepted into a snapshot.
pub open spec fn planet_wf(p: Planet) -> bool {
    &&& 0 <= p.ship_count <= MAX_SHIP_COUNT
    &&& -COORD_LIMIT <= p.x <= COORD_LIMIT
    &&& -COORD_LIMIT <= p.y <= COORD_LIMIT
}

/// An in-flight fleet: `turns_remaining` turns from now it arrives at
/// `destination` with `ship_count` ships for `owner`. The id is unique over
/// the whole game and never reused.
#[derive(Clone, Debug)]
pub struct Expedition {
    pub id: ExpeditionId,
    pub ship_count: i64,
    pub origin: PlanetName,
    pub destination: PlanetName,
    pub owner: PlayerId,
    pub turns_remaining: i64,
}

/// One turn's orders.
#[derive(Clone, Debug)]
pub struct Output {
    pub moves: Vec<Move>,
}

/// An order to send `ship_count` ships from `origin` to `destination`.
#[derive(Clone, Debug, PartialEq, Eq)]
pub struct Move {
    pub origin: PlanetName,
    pub destination: PlanetName,
    pub ship_count: i64,
}

/// First position of `name` in `names`, or `None` if it does not occur.
pub open spec fn spec_name_index(names: Seq<String>, name: Seq<char>) -> Option<usize>
    decreases names.len(),
{
    if names.len() == 0 {
        None
    } else if names[0]@ == name {
        Some(0usize)
    } else {
        match spec_name_index(names.skip(1), name) {
            Some(i) => Some((i + 1) as usize),
            None => None,
        }
    }
}

/// Resolve a planet, given either as an index or as a name, to its index in
/// the snapshot's planet list. `None` when the index is out of range or the
/// name is unknown.
pub trait IntoPlanetId {
    spec fn spec_planet_id(&self, names: Seq<String>) -> Option<usize>;

    fn into_planet_id(&self, planet_names: &Vec<PlanetName>) -> (r: Option<PlanetId>)
        ensures
            r == self.spec_planet_id(planet_names@),
    ;
}

impl IntoPlanetId for PlanetId {
    open spec fn spec_planet_id(&self, names: Seq<String>) -> Option<usize> {
        if *self < names.len() {
            Some(*self)
        } else {
            None
        }
    }

    fn into_planet_id(&self, planet_names: &Vec<PlanetName>) -> (r: Option<PlanetId>) {
        if *self < planet_names.len() {
            Some(*self)
        } else {
            None
        }
    }
}

impl IntoPlanetId for PlanetName {
    open spec fn spec_planet_id(&self, names: Seq<String>) -> Option<usize> {
        spec_name_index(names, self@)
    }

    fn into_planet_id(&self, planet_names: &Vec<PlanetName>) -> (r: Option<PlanetId>) {
        find_name(planet_names, self)
    }
}

/// `spec_name_index` is determined by the first match: if the first `i`
/// entries all differ from `name`, the search outcome is decided by what
/// stands at `i`.
pub proof fn lemma_name_index_prefix(names: Seq<String>, name: Seq<char>, i: int)
    requires
        names.len() <= usize::MAX,
        0 <= i <= names.len(),
        forall|k: int| 0 <= k < i ==> names[k]@ != name,
    ensures
        i < names.len() && names[i]@ == name ==> spec_name_index(names, name) == Some(i as usize),
        i == names.len() ==> spec_name_index(names, name) is None,
    decreases names.len(),
{
    if names.len() > 0 {
        if names[0]@ == name {
            assert(i == 0);
        } else {
            assert(names.skip(1).len() == names.len() - 1);
            assert(forall|k: int| 0 <= k < i - 1 ==> names.skip(1)[k]@ != name);
            lemma_name_index_prefix(names.skip(1), name, if i == 0 { 0 } else { i - 1 });
            if 0 < i < names.len() && names[i]@ == name {
                assert(names.skip(1)[i - 1]@ == name);
            }
        }
    }
}

/// A found index is in range and carries the name looked for.
pub proof fn lemma_name_index_some(names: Seq<String>, name: Seq<char>)
    requires
        names.len() <= usize::MAX,
    ensures
        spec_name_index(names, name) matches Some(i) ==> i < names.len() && names[i as int]@
            == name,
    decreases names.len(),
{
    if names.len() > 0 && names[0]@ != name {
        lemma_name_index_some(names.skip(1), name);
        if spec_name_index(names.skip(1), name) is Some {
            let i = spec_name_index(names.skip(1), name).unwrap();
            assert(names.skip(1)[i as int] == names[i + 1]);
        }
    }
}

/// A failed search means no entry carries the name.
pub proof fn lemma_name_index_none(names: Seq<String>, name: Seq<char>)
    requires
        spec_name_index(names, name) is None,
    ensures
        forall|k: int| 0 <= k < names.len() ==> (#[trigger] names[k])@ != name,
    decreases names.len(),
{
    if names.len() > 0 {
        lemma_name_index_none(names.skip(1), name);
        assert forall|k: int| 0 <= k < names.len() implies (#[trigger] names[k])@ != name by {
            if k > 0 {
                assert(names.skip(1)[k - 1] == names[k]);
            }
        }
    }
}

/// Linear scan for a planet name; the snapshot's planet list is small.
pub fn find_name(names: &Vec<PlanetName>, name: &PlanetName) -> (r: Option<usize>)
    ensures
        r == spec_name_index(names@, name@),
        r matches Some(i) ==> i < names@.len() && names@[i as int]@ == name@,
{
    let n: usize = names.len();
    let mut i: usize = 0;
    while i < n
        invariant
            n == names@.len(),
            0 <= i <= n,
            forall|k: int| 0 <= k < i ==> names@[k]@ != name@,
        decreases n - i,
    {
        if names[i].eq(name) {
            proof {
                lemma_name_index_prefix(names@, name@, i as int);
            }
            return Some(i);
        }
        i = i + 1;
    }
    proof {
        lemma_name_index_prefix(names@, name@, n as int);
    }
    None
}

} // verus!
