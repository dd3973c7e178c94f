use flowbot::state::{resolve_combat, State, StateError};
use flowbot::structs::{Expedition, GameSituation, Input, IntoPlanetId, Planet};

fn planet(name: &str, ship_count: i64, x: i64, y: i64, owner: Option<u8>) -> Planet {
    Planet { ship_count, x, y, owner, name: name.to_string() }
}

fn expedition(id: u64, ships: i64, origin: &str, dest: &str, owner: u8, turns: i64) -> Expedition {
    Expedition {
        id,
        ship_count: ships,
        origin: origin.to_string(),
        destination: dest.to_string(),
        owner,
        turns_remaining: turns,
    }
}

fn two_planet_state() -> State {
    let input = Input {
        planets: vec![
            planet("a", 10, 0, 0, Some(1)),
            planet("b", 3, 4_000, 0, None),
        ],
        expeditions: vec![],
    };
    State::new(input).unwrap()
}

#[test]
fn combat_two_buckets_stronger_wins() {
    let deltas = vec![(2u8, 4i64)];
    assert_eq!(resolve_combat(Some(1), 10, &deltas), (Some(1), 6));
}

#[test]
fn combat_matched_clash_leaves_neutral() {
    let deltas = vec![(2u8, 5i64)];
    assert_eq!(resolve_combat(Some(1), 5, &deltas), (None, 0));
}

#[test]
fn combat_lone_bucket_keeps_ships() {
    let deltas: Vec<(u8, i64)> = vec![];
    assert_eq!(resolve_combat(Some(1), 7, &deltas), (Some(1), 7));
}

#[test]
fn combat_three_buckets_reduce_to_top_two() {
    // {1: 10, 2: 6, 3: 2}: the third bucket is irrelevant
    let deltas = vec![(2u8, 6i64), (3u8, 2i64)];
    assert_eq!(resolve_combat(Some(1), 10, &deltas), (Some(1), 4));
}

#[test]
fn combat_tie_breaks_by_owner_id() {
    // {2: 5, 3: 5} on a bare neutral planet: equal counts, lower id ranks
    // first, and the clash wipes both
    let deltas = vec![(2u8, 5i64), (3u8, 5i64)];
    assert_eq!(resolve_combat(None, 0, &deltas), (None, 0));
}

#[test]
fn predict_zero_turns_is_observed_state() {
    let state = two_planet_state();
    assert_eq!(state.predict_planet(0, &0usize), (Some(1), 10));
    assert_eq!(state.predict_planet(0, &1usize), (None, 3));
}

#[test]
fn predict_owned_planet_grows_one_per_turn() {
    let state = two_planet_state();
    assert_eq!(state.predict_planet(1, &0usize), (Some(1), 11));
    assert_eq!(state.predict_planet(5, &0usize), (Some(1), 15));
}

#[test]
fn predict_neutral_planet_does_not_grow() {
    let state = two_planet_state();
    assert_eq!(state.predict_planet(7, &1usize), (None, 3));
}

#[test]
fn predict_resolves_scheduled_arrival() {
    let mut state = two_planet_state();
    state.tick();
    let input = Input {
        planets: vec![
            planet("a", 11, 0, 0, Some(1)),
            planet("b", 3, 4_000, 0, None),
        ],
        expeditions: vec![expedition(7, 5, "a", "b", 1, 2)],
    };
    state.update(input).unwrap();
    // two turns out, 5 ships of player 1 hit the neutral 3: 5 - 3 survive
    assert_eq!(state.predict_planet(2, &1usize), (Some(1), 2));
}

#[test]
fn predict_planet_by_name() {
    let state = two_planet_state();
    assert_eq!(state.predict_planet(0, &"b".to_string()), (None, 3));
}

#[test]
fn predict_planets_covers_all() {
    let state = two_planet_state();
    let all = state.predict_planets(1);
    assert_eq!(all, vec![(Some(1), 11), (None, 3)]);
}

#[test]
fn ledger_absorbs_each_expedition_once() {
    let mut state = two_planet_state();
    state.tick();
    let snapshot = || Input {
        planets: vec![
            planet("a", 11, 0, 0, Some(1)),
            planet("b", 3, 4_000, 0, None),
        ],
        expeditions: vec![expedition(9, 5, "a", "b", 1, 3)],
    };
    state.update(snapshot()).unwrap();
    let once = state.predict_planet(3, &1usize);
    // the same expedition id reappears next turn, as an in-flight fleet does
    state.tick();
    let again = Input {
        planets: vec![
            planet("a", 12, 0, 0, Some(1)),
            planet("b", 3, 4_000, 0, None),
        ],
        expeditions: vec![expedition(9, 5, "a", "b", 1, 2)],
    };
    state.update(again).unwrap();
    let twice = state.predict_planet(2, &1usize);
    assert_eq!(once, (Some(1), 2));
    assert_eq!(twice, (Some(1), 2));
}

#[test]
fn expedition_to_unknown_planet_is_ignored() {
    let mut state = two_planet_state();
    state.tick();
    let input = Input {
        planets: vec![
            planet("a", 11, 0, 0, Some(1)),
            planet("b", 3, 4_000, 0, None),
        ],
        expeditions: vec![expedition(3, 5, "a", "nowhere", 2, 2)],
    };
    state.update(input).unwrap();
    assert_eq!(state.predict_planet(2, &1usize), (None, 3));
}

#[test]
fn new_rejects_duplicate_names() {
    let input = Input {
        planets: vec![
            planet("a", 1, 0, 0, None),
            planet("a", 2, 5_000, 0, None),
        ],
        expeditions: vec![],
    };
    assert_eq!(State::new(input).err().unwrap(), StateError::DuplicatePlanetName);
}

#[test]
fn new_rejects_coinciding_planets() {
    let input = Input {
        planets: vec![
            planet("a", 1, 0, 0, None),
            planet("b", 2, 0, 0, None),
        ],
        expeditions: vec![],
    };
    assert_eq!(State::new(input).err().unwrap(), StateError::DegenerateGeometry);
}

#[test]
fn new_rejects_negative_ship_count() {
    let input = Input {
        planets: vec![planet("a", -1, 0, 0, None)],
        expeditions: vec![],
    };
    assert_eq!(State::new(input).err().unwrap(), StateError::PlanetOutOfBounds);
}

#[test]
fn update_rejects_wrong_planet_set() {
    let mut state = two_planet_state();
    let input = Input {
        planets: vec![planet("a", 10, 0, 0, Some(1))],
        expeditions: vec![],
    };
    assert_eq!(state.update(input).unwrap_err(), StateError::PlanetCountMismatch);
    let input = Input {
        planets: vec![
            planet("a", 10, 0, 0, Some(1)),
            planet("c", 3, 4_000, 0, None),
        ],
        expeditions: vec![],
    };
    assert_eq!(state.update(input).unwrap_err(), StateError::UnknownPlanet);
}

#[test]
fn update_rejects_moved_planet() {
    let mut state = two_planet_state();
    let input = Input {
        planets: vec![
            planet("a", 10, 0, 0, Some(1)),
            planet("b", 3, 5_000, 0, None),
        ],
        expeditions: vec![],
    };
    assert_eq!(state.update(input).unwrap_err(), StateError::PlanetMoved);
}

#[test]
fn update_reorders_planets_by_known_names() {
    let mut state = two_planet_state();
    let input = Input {
        planets: vec![
            planet("b", 4, 4_000, 0, Some(2)),
            planet("a", 12, 0, 0, Some(1)),
        ],
        expeditions: vec![],
    };
    state.update(input).unwrap();
    assert_eq!(state.predict_planet(0, &"a".to_string()), (Some(1), 12));
    assert_eq!(state.predict_planet(0, &"b".to_string()), (Some(2), 4));
}

#[test]
fn gameover_reports_each_outcome() {
    let mine_only = State::new(Input {
        planets: vec![
            planet("a", 10, 0, 0, Some(1)),
            planet("b", 3, 4_000, 0, None),
        ],
        expeditions: vec![],
    })
    .unwrap();
    assert_eq!(mine_only.check_gameover(), GameSituation::WON);
    let none_mine = State::new(Input {
        planets: vec![
            planet("a", 10, 0, 0, Some(2)),
            planet("b", 3, 4_000, 0, None),
        ],
        expeditions: vec![],
    })
    .unwrap();
    assert_eq!(none_mine.check_gameover(), GameSituation::LOST);
    let contested = State::new(Input {
        planets: vec![
            planet("a", 10, 0, 0, Some(1)),
            planet("b", 3, 4_000, 0, Some(2)),
        ],
        expeditions: vec![],
    })
    .unwrap();
    assert_eq!(contested.check_gameover(), GameSituation::ONGOING);
}

#[test]
fn name_lookup_finds_first_match() {
    let names = vec!["a".to_string(), "b".to_string(), "c".to_string()];
    assert_eq!(flowbot::structs::find_name(&names, &"b".to_string()), Some(1));
    assert_eq!(flowbot::structs::find_name(&names, &"d".to_string()), None);
    assert_eq!(1usize.into_planet_id(&names), Some(1));
    assert_eq!(9usize.into_planet_id(&names), None);
    assert_eq!("c".to_string().into_planet_id(&names), Some(2));
}

#[test]
fn tick_advances_turn() {
    let mut state = two_planet_state();
    assert_eq!(state.turn, 0);
    state.tick();
    assert_eq!(state.turn, 1);
}

#[test]
fn get_state_cell_reaches_ledger_cell() {
    let mut state = two_planet_state();
    let cell = state.get_state_cell(&"b".to_string(), 3);
    assert!(cell.deltas.is_empty());
}
