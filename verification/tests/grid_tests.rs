use evacsim::grid::{CellType, Grid, ObstaclePattern};

#[test]
fn empty_room_has_walled_border_and_right_exit() {
    let g = Grid::new_with_pattern(10, 8, ObstaclePattern::Empty);
    assert_eq!(g.width(), 10);
    assert_eq!(g.height(), 8);
    for x in 0..10 {
        assert_eq!(g.get(x, 0), Some(CellType::Wall));
        assert_eq!(g.get(x, 7), Some(CellType::Wall));
    }
    for y in 0..8 {
        assert_eq!(g.get(0, y), Some(CellType::Wall));
    }
    // The exit is a three-cell opening at mid-height of the right wall.
    assert_eq!(g.get(9, 2), Some(CellType::Wall));
    assert_eq!(g.get(9, 3), Some(CellType::Exit));
    assert_eq!(g.get(9, 4), Some(CellType::Exit));
    assert_eq!(g.get(9, 5), Some(CellType::Exit));
    assert_eq!(g.get(9, 6), Some(CellType::Wall));
    // The interior is empty.
    for y in 1..7 {
        for x in 1..9 {
            assert_eq!(g.get(x, y), Some(CellType::Empty));
        }
    }
}

#[test]
fn single_pattern_places_a_pillar() {
    let g = Grid::new_with_pattern(12, 9, ObstaclePattern::Single);
    // The pillar is centred at (width * 5 / 6, height / 2) = (10, 4).
    for y in 3..=5 {
        for x in 9..=10 {
            assert_eq!(g.get(x, y), Some(CellType::Wall), "({x}, {y})");
        }
    }
    assert_eq!(g.get(8, 4), Some(CellType::Empty));
    // The exit opening wins over the pillar where both touch the border.
    assert_eq!(g.get(11, 4), Some(CellType::Exit));
    assert_eq!(g.get(11, 2), Some(CellType::Wall));
}

#[test]
fn default_grid_uses_single_pattern() {
    let a = Grid::new(12, 9);
    let b = Grid::new_with_pattern(12, 9, ObstaclePattern::Single);
    for y in 0..9 {
        for x in 0..12 {
            assert_eq!(a.get(x, y), b.get(x, y));
        }
    }
}

#[test]
fn rooms_pattern_has_dividing_wall_doors_and_blocks() {
    let g = Grid::new_with_pattern(10, 15, ObstaclePattern::Rooms);
    // Dividing wall at x = 5, doors around y = 5 and y = 10.
    assert_eq!(g.get(5, 1), Some(CellType::Wall));
    assert_eq!(g.get(5, 2), Some(CellType::Wall));
    for y in 3..=12 {
        assert_eq!(g.get(5, y), Some(CellType::Empty), "door at y = {y}");
    }
    assert_eq!(g.get(5, 13), Some(CellType::Wall));
    // One block per room at (2, 3) and (2, 10).
    assert_eq!(g.get(2, 3), Some(CellType::Wall));
    assert_eq!(g.get(2, 10), Some(CellType::Wall));
    assert_eq!(g.get(2, 6), Some(CellType::Empty));
}

#[test]
fn exit_obstacle_pattern_blocks_and_carves() {
    let g = Grid::new_with_pattern(20, 24, ObstaclePattern::ExitObstacle);
    // The big block spans x in [9, 15], y in [7, 17].
    assert_eq!(g.get(10, 7), Some(CellType::Wall));
    assert_eq!(g.get(12, 12), Some(CellType::Wall));
    assert_eq!(g.get(15, 17), Some(CellType::Wall));
    // The carved corridors re-open interior rows above and below the
    // block, beside the exit.
    assert_eq!(g.get(12, 4), Some(CellType::Empty));
    assert_eq!(g.get(13, 6), Some(CellType::Empty));
    assert_eq!(g.get(15, 20), Some(CellType::Empty));
    // The border stays closed: walls everywhere but the exit opening.
    assert_eq!(g.get(12, 0), Some(CellType::Wall));
    assert_eq!(g.get(12, 23), Some(CellType::Wall));
    assert_eq!(g.get(0, 12), Some(CellType::Wall));
    assert_eq!(g.get(19, 12), Some(CellType::Exit));
}

#[test]
fn labyrinth_pattern_leaves_passages() {
    let g = Grid::new_with_pattern(30, 20, ObstaclePattern::Labyrinth);
    // Horizontal wall on row 8 with gaps where x mod 12 == 6.
    assert_eq!(g.get(8, 8), Some(CellType::Wall));
    assert_eq!(g.get(9, 8), Some(CellType::Wall));
    assert_eq!(g.get(18, 8), Some(CellType::Empty));
    // Vertical wall on column 12 with a gap where y mod 8 == 4.
    assert_eq!(g.get(12, 9), Some(CellType::Wall));
    assert_eq!(g.get(12, 12), Some(CellType::Empty));
}

#[test]
fn two_exit_patterns_open_two_openings() {
    let far = Grid::new_with_pattern(12, 16, ObstaclePattern::TwoExitsFar);
    // quarter = 4: exits at y in {3, 4} and {11, 12} on the right wall.
    assert_eq!(far.get(11, 3), Some(CellType::Exit));
    assert_eq!(far.get(11, 4), Some(CellType::Exit));
    assert_eq!(far.get(11, 11), Some(CellType::Exit));
    assert_eq!(far.get(11, 12), Some(CellType::Exit));
    assert_eq!(far.get(11, 7), Some(CellType::Wall));

    let adj = Grid::new_with_pattern(12, 16, ObstaclePattern::TwoExitsAdjacent);
    // centre = 8: exits at y in {5, 6} and {9, 10}, wall between them.
    assert_eq!(adj.get(11, 5), Some(CellType::Exit));
    assert_eq!(adj.get(11, 6), Some(CellType::Exit));
    assert_eq!(adj.get(11, 7), Some(CellType::Wall));
    assert_eq!(adj.get(11, 8), Some(CellType::Wall));
    assert_eq!(adj.get(11, 9), Some(CellType::Exit));
    assert_eq!(adj.get(11, 10), Some(CellType::Exit));
}

#[test]
fn border_cells_are_walls_or_exits_in_every_layout() {
    let cases = [
        (ObstaclePattern::Empty, 3, 3),
        (ObstaclePattern::Single, 12, 9),
        (ObstaclePattern::Rooms, 10, 10),
        (ObstaclePattern::ExitObstacle, 20, 19),
        (ObstaclePattern::MultiObstacles, 12, 10),
        (ObstaclePattern::Labyrinth, 16, 16),
        (ObstaclePattern::TwoExitsAdjacent, 8, 6),
        (ObstaclePattern::TwoExitsFar, 8, 8),
    ];
    for (pattern, w, h) in cases {
        let g = Grid::new_with_pattern(w, h, pattern);
        for y in 0..h {
            for x in 0..w {
                let cell = g.get(x, y).unwrap();
                let border = x == 0 || y == 0 || x == w - 1 || y == h - 1;
                if border {
                    assert!(
                        cell == CellType::Wall || cell == CellType::Exit,
                        "open border at ({x}, {y}) in {pattern:?}",
                    );
                }
                if cell == CellType::Exit {
                    assert_eq!(x, w - 1, "exit off the right wall in {pattern:?}");
                }
            }
        }
    }
}

#[test]
fn get_and_set_respect_bounds() {
    let mut g = Grid::new_with_pattern(6, 5, ObstaclePattern::Empty);
    assert_eq!(g.get(6, 2), None);
    assert_eq!(g.get(2, 5), None);
    // Out-of-bounds writes are silently ignored.
    g.set(6, 2, CellType::Wall);
    g.set(99, 99, CellType::Wall);
    assert_eq!(g.get(5, 4), Some(CellType::Wall));
    // In-bounds writes stick.
    g.set(2, 2, CellType::Wall);
    assert_eq!(g.get(2, 2), Some(CellType::Wall));
    assert!(!g.is_walkable(2, 2));
    g.set(2, 2, CellType::Empty);
    assert!(g.is_walkable(2, 2));
    assert!(g.is_empty(2, 2));
}

#[test]
fn walkability_covers_empty_and_exit_only() {
    let g = Grid::new_with_pattern(8, 7, ObstaclePattern::Empty);
    // h/2 = 3: exit rows 2..=4 on column 7.
    assert!(g.is_exit(7, 3));
    assert!(g.is_walkable(7, 3));
    assert!(g.is_walkable(3, 3));
    assert!(!g.is_exit(3, 3));
    assert!(!g.is_walkable(0, 0));
    assert!(!g.is_walkable(8, 3));
}
