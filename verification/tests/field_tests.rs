use evacsim::floor_field::{FloorField, AXIS_COST, DIAG_COST, UNREACHABLE, WALL_DISCOUNT};
use evacsim::grid::{CellType, Grid, ObstaclePattern};

#[test]
fn exits_are_at_distance_zero() {
    let g = Grid::new_with_pattern(13, 13, ObstaclePattern::Empty);
    let f = FloorField::new(&g);
    assert_eq!(f.distance_at(12, 5), 0);
    assert_eq!(f.distance_at(12, 6), 0);
    assert_eq!(f.distance_at(12, 7), 0);
}

#[test]
fn straight_line_distances_grow_one_step_per_cell() {
    // 13 by 13 empty room, exit opening on the right at rows 5..=7. The
    // middle row runs straight at the exit with no wall nearby, so its
    // cells cost exactly one axis step per cell of separation.
    let g = Grid::new_with_pattern(13, 13, ObstaclePattern::Empty);
    let f = FloorField::new(&g);
    assert_eq!(f.distance_at(11, 6), AXIS_COST);
    assert_eq!(f.distance_at(10, 6), 2 * AXIS_COST);
    assert_eq!(f.distance_at(9, 6), 3 * AXIS_COST);
}

#[test]
fn wall_adjacent_cells_get_the_near_exit_discount() {
    let g = Grid::new_with_pattern(13, 13, ObstaclePattern::Empty);
    let f = FloorField::new(&g);
    // (11, 5) touches the wall cell (12, 4), so its one axis step from
    // the exit at (12, 5) is discounted.
    assert_eq!(f.distance_at(11, 5), AXIS_COST - WALL_DISCOUNT);
    assert_eq!(f.distance_at(11, 7), AXIS_COST - WALL_DISCOUNT);
    // One more plain step away from that discounted cell.
    assert_eq!(f.distance_at(10, 5), 2 * AXIS_COST - WALL_DISCOUNT);
}

#[test]
fn walls_and_sealed_pockets_are_unreachable() {
    let mut g = Grid::new_with_pattern(7, 7, ObstaclePattern::Empty);
    // Seal the corner cell (1, 1) behind walls.
    g.set(2, 1, CellType::Wall);
    g.set(2, 2, CellType::Wall);
    g.set(1, 2, CellType::Wall);
    let f = FloorField::new(&g);
    assert_eq!(f.distance_at(1, 1), UNREACHABLE);
    assert_eq!(f.distance_at(0, 0), UNREACHABLE);
    assert_eq!(f.distance_at(2, 1), UNREACHABLE);
    // Cells outside the pocket are still reached.
    assert!(f.distance_at(3, 3) < UNREACHABLE);
}

#[test]
fn every_reached_cell_has_a_strictly_closer_neighbour() {
    // The discount is smaller than the cheapest step, so the field keeps
    // descending towards an exit through every reached non-exit cell.
    let dirs: [(i64, i64); 8] =
        [(0, -1), (1, 0), (0, 1), (-1, 0), (1, -1), (1, 1), (-1, 1), (-1, -1)];
    for pattern in [
        ObstaclePattern::Empty,
        ObstaclePattern::Single,
        ObstaclePattern::Rooms,
        ObstaclePattern::MultiObstacles,
        ObstaclePattern::TwoExitsFar,
    ] {
        let g = Grid::new_with_pattern(20, 16, pattern);
        let f = FloorField::new(&g);
        for y in 0..16u32 {
            for x in 0..20u32 {
                let d = f.distance_at(x as usize, y as usize);
                if d < UNREACHABLE && !g.is_exit(x as usize, y as usize) {
                    let mut descends = false;
                    for (dx, dy) in dirs {
                        let nx = x as i64 + dx;
                        let ny = y as i64 + dy;
                        if nx >= 0 && ny >= 0 && nx < 20 && ny < 16 {
                            if f.distance_at(nx as usize, ny as usize) < d {
                                descends = true;
                            }
                        }
                    }
                    assert!(descends, "no descent at ({x}, {y}) in {pattern:?}");
                }
            }
        }
    }
}

#[test]
fn update_treats_occupied_cells_as_obstacles() {
    let g = Grid::new_with_pattern(7, 7, ObstaclePattern::Empty);
    let mut f = FloorField::new(&g);
    // Exit rows are 2..=4 on column 6; free path first.
    assert_eq!(f.distance_at(5, 3), AXIS_COST);
    f.update(&g, &vec![(5usize, 3usize)]);
    // The occupied cell itself is no longer reached...
    assert_eq!(f.distance_at(5, 3), UNREACHABLE);
    // ...and its west neighbour now routes diagonally around it through
    // the discounted cell (5, 2).
    assert_eq!(f.distance_at(5, 2), AXIS_COST - WALL_DISCOUNT);
    assert_eq!(f.distance_at(4, 3), AXIS_COST - WALL_DISCOUNT + DIAG_COST);
    // A rebuild without obstacles restores the plain field.
    f.update(&g, &Vec::<(usize, usize)>::new());
    assert_eq!(f.distance_at(5, 3), AXIS_COST);
}

#[test]
fn best_direction_follows_the_gradient_cardinal_first() {
    let g = Grid::new_with_pattern(7, 7, ObstaclePattern::Empty);
    let f = FloorField::new(&g);
    // From (5, 3) the exit (6, 3) lies due east at distance zero.
    assert_eq!(f.get_best_direction(5, 3), Some((1, 0)));
    // On an exit cell nothing improves on distance zero.
    assert_eq!(f.get_best_direction(6, 3), None);
}

#[test]
fn best_direction_is_none_when_unreachable() {
    let mut g = Grid::new_with_pattern(7, 7, ObstaclePattern::Empty);
    g.set(2, 1, CellType::Wall);
    g.set(2, 2, CellType::Wall);
    g.set(1, 2, CellType::Wall);
    let f = FloorField::new(&g);
    assert_eq!(f.get_best_direction(1, 1), None);
}

#[test]
fn raw_distance_table_matches_lookups() {
    let g = Grid::new_with_pattern(7, 7, ObstaclePattern::Empty);
    let f = FloorField::new(&g);
    let d = f.distances();
    assert_eq!(d.len(), 49);
    for y in 0..7 {
        for x in 0..7 {
            assert_eq!(d[y * 7 + x], f.distance_at(x, y));
        }
    }
}
