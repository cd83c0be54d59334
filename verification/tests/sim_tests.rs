use evacsim::grid::{CellType, Grid, ObstaclePattern};
use evacsim::simulation::{conflict_winner, SimError, Simulation};

/// Counts the occupancy markers the grid carries.
fn occupied_cells(g: &Grid) -> usize {
    let mut count: usize = 0;
    for y in 0..g.height() {
        for x in 0..g.width() {
            if g.get(x, y) == Some(CellType::Agent) {
                count += 1;
            }
        }
    }
    count
}

#[test]
fn construction_places_the_requested_population() {
    let sim = Simulation::new_with_pattern(12, 9, 5, 2000, ObstaclePattern::Empty, 11)
        .expect("5 agents fit");
    assert_eq!(sim.agent_count(), 5);
    assert_eq!(sim.step_count(), 0);
    assert!(!sim.is_finished());
    assert_eq!(occupied_cells(sim.grid()), 5);
}

#[test]
fn default_constructor_uses_the_pillar_layout() {
    let sim = Simulation::new(14, 10, 3, 2000, 8).expect("3 agents fit");
    let reference = Grid::new(14, 10);
    // The fixed cells of the simulation's grid match the default layout.
    for y in 0..10 {
        for x in 0..14 {
            let fixed = reference.get(x, y).unwrap();
            if fixed == CellType::Wall || fixed == CellType::Exit {
                assert_eq!(sim.grid().get(x, y), Some(fixed), "({x}, {y})");
            }
        }
    }
    // The exposed field is the one built from the agent-free layout:
    // exit cells sit at distance zero, the pillar is unreached.
    assert_eq!(sim.field().distance_at(13, 5), 0);
    assert_eq!(sim.field().distance_at(11, 5), evacsim::floor_field::UNREACHABLE);
}

#[test]
fn construction_fails_fast_when_overfull() {
    // A 3 by 3 room has exactly one empty interior cell.
    let err = Simulation::new_with_pattern(3, 3, 2, 2000, ObstaclePattern::Empty, 1);
    assert_eq!(err.err(), Some(SimError::TooManyAgents));
    let ok = Simulation::new_with_pattern(3, 3, 1, 2000, ObstaclePattern::Empty, 1);
    assert!(ok.is_ok());
}

#[test]
fn grid_markers_always_match_the_population() {
    let mut sim = Simulation::new_with_pattern(14, 10, 8, 2000, ObstaclePattern::Single, 99)
        .expect("8 agents fit");
    for _ in 0..120 {
        sim.step();
        assert_eq!(occupied_cells(sim.grid()), sim.agent_count());
    }
}

#[test]
fn evacuation_count_never_grows_and_sticks_at_zero() {
    let mut sim = Simulation::new_with_pattern(12, 9, 6, 2000, ObstaclePattern::Empty, 42)
        .expect("6 agents fit");
    let mut last = sim.agent_count();
    let mut ticks: usize = 0;
    while !sim.is_finished() && ticks < 600 {
        sim.step();
        ticks += 1;
        let now = sim.agent_count();
        assert!(now <= last, "population grew from {last} to {now}");
        last = now;
    }
    assert!(sim.is_finished(), "empty room not evacuated within 600 ticks");
    // Once finished, a tick is a no-op: the counter freezes and the
    // population stays at zero.
    let frozen = sim.step_count();
    sim.step();
    sim.step();
    assert_eq!(sim.agent_count(), 0);
    assert_eq!(sim.step_count(), frozen);
}

#[test]
fn empty_room_evacuates_within_a_bound_of_its_diameter() {
    // Regression bound: in an obstacle-free room the evacuation finishes
    // within a small multiple of the room's longest straight-line walk,
    // here taken very generously to absorb activity-gate skips.
    let mut sim = Simulation::new_with_pattern(20, 12, 10, 2000, ObstaclePattern::Empty, 7)
        .expect("10 agents fit");
    let bound = 40 * (20 + 12);
    let mut ticks: usize = 0;
    while !sim.is_finished() && ticks < bound {
        sim.step();
        ticks += 1;
    }
    assert!(sim.is_finished(), "not evacuated within {bound} ticks");
}

#[test]
fn walls_and_exits_survive_every_tick() {
    let mut sim = Simulation::new_with_pattern(14, 10, 6, 2000, ObstaclePattern::Rooms, 5)
        .expect("6 agents fit");
    let reference = Grid::new_with_pattern(14, 10, ObstaclePattern::Rooms);
    for _ in 0..80 {
        sim.step();
        for y in 0..10 {
            for x in 0..14 {
                let fixed = reference.get(x, y).unwrap();
                if fixed == CellType::Wall || fixed == CellType::Exit {
                    assert_eq!(sim.grid().get(x, y), Some(fixed), "({x}, {y})");
                }
            }
        }
    }
}

#[test]
fn single_agent_next_to_the_exit_leaves_in_one_tick() {
    // The smallest viable room: one interior cell, adjacent to the exit
    // opening. The agent evacuates on the first tick.
    let mut sim = Simulation::new_with_pattern(3, 3, 1, 2000, ObstaclePattern::Empty, 2)
        .expect("1 agent fits");
    assert_eq!(sim.agent_count(), 1);
    sim.step();
    assert_eq!(sim.step_count(), 1);
    assert_eq!(sim.agent_count(), 0);
    assert!(sim.is_finished());
}

#[test]
fn probabilistic_mode_also_evacuates() {
    let mut sim = Simulation::new_with_pattern(12, 9, 4, 2000, ObstaclePattern::Empty, 17)
        .expect("4 agents fit");
    sim.set_probabilistic(true);
    let mut ticks: usize = 0;
    while !sim.is_finished() && ticks < 4000 {
        sim.step();
        ticks += 1;
    }
    assert!(sim.is_finished(), "probabilistic run not finished in 4000 ticks");
}

#[test]
fn closer_contestant_wins_the_cell() {
    // Two contestants at order positions 0 and 1 both want (4, 3) on an
    // 8 by 7 board; the one at distance 1000 beats the one at 3000.
    let mut ff = vec![0u64; 8 * 7];
    ff[3 * 8 + 5] = 1000; // start of contestant at position 0
    ff[3 * 8 + 3] = 3000; // start of contestant at position 1
    let intents = vec![Some((4usize, 3usize)), Some((4usize, 3usize))];
    let starts = vec![(5usize, 3usize), (3usize, 3usize)];
    let order = vec![0usize, 1usize];
    let q = conflict_winner(&intents, &starts, &order, &ff, 8, 7, (4, 3));
    assert_eq!(q, 0);

    // Swap the distances: the other contestant wins, wherever it sits in
    // the order.
    ff[3 * 8 + 5] = 3000;
    ff[3 * 8 + 3] = 1000;
    let q = conflict_winner(&intents, &starts, &order, &ff, 8, 7, (4, 3));
    assert_eq!(q, 1);
}

#[test]
fn tied_contestants_resolve_to_the_earliest_in_order() {
    let mut ff = vec![0u64; 8 * 7];
    ff[3 * 8 + 5] = 2000;
    ff[3 * 8 + 3] = 2000;
    ff[1 * 8 + 4] = 9000; // an unrelated non-contestant
    let intents = vec![Some((4usize, 3usize)), Some((4usize, 3usize)), None];
    let starts = vec![(5usize, 3usize), (3usize, 3usize), (4usize, 1usize)];
    let order = vec![1usize, 0usize, 2usize];
    let q = conflict_winner(&intents, &starts, &order, &ff, 8, 7, (4, 3));
    assert_eq!(q, 0, "on a tie the earliest order position wins");
}
