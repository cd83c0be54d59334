//! The potential field: for every cell, the accumulated path cost to the
//! nearest exit, computed by a multi-source relaxation over the Moore
//! neighbourhood.
//!
//! Costs are fixed-point thousandths of a cell step: 1000 along the axes,
//! 1414 along the diagonals. Cells adjacent to a wall receive a small
//! discount on candidate distances while those are still below a
//! near-exit threshold; this biases agents into hugging walls close to an
//! exit. The discount is a deliberate flavour heuristic, not a true
//! metric, but because it is smaller than the cheapest step cost the
//! field still descends strictly towards the exits (see
//! [`lemma_field_descent`]).

use vstd::prelude::*;
use vstd::arithmetic::div_mod::lemma_fundamental_div_mod;
use crate::direction::{dir_dx, dir_dy, dir_cost, rev_dir, lemma_rev_dir, neighbor, step_cost};
use crate::grid::{CellType, Grid, lemma_flat_index, lemma_grid_size};

verus! {

/// Cost of one axis-aligned step, in thousandths of a cell.
pub const AXIS_COST: u64 = 1000;

/// Cost of one diagonal step, in thousandths of a cell.
pub const DIAG_COST: u64 = 1414;

/// Discount granted to candidate distances of wall-adjacent cells.
pub const WALL_DISCOUNT: u64 = 300;

/// The discount applies only while the candidate distance is below this.
pub const NEAR_EXIT_LIMIT: u64 = 10000;

/// Sentinel distance of cells no exit can reach.
pub const UNREACHABLE: u64 = 0xffff_ffff_ffff;

/// The value at (x, y) of a row-major distance table of width w.
pub open spec fn field_at(d: Seq<u64>, w: int, x: int, y: int) -> u64 {
    d[y * w + x]
}

/// Whether the occupancy list contains the cell (x, y).
pub open spec fn occupied_contains(occ: Seq<(usize, usize)>, x: int, y: int) -> bool {
    exists|k: int| 0 <= k < occ.len() && (#[trigger] occ[k]).0 == x && occ[k].1 == y
}

/// A cell the relaxation may pass through: inside the grid, not a wall,
/// and not listed as occupied.
pub open spec fn passable(grid: &Grid, occ: Seq<(usize, usize)>, x: int, y: int) -> bool {
    grid.in_bounds(x, y)
        && grid.cell(x, y) != CellType::Wall
        && !occupied_contains(occ, x, y)
}

/// Whether some Moore neighbour of (x, y) is a wall cell.
pub open spec fn near_wall(grid: &Grid, x: int, y: int) -> bool {
    exists|i: int| 0 <= i < 8
        && grid.in_bounds(x + dir_dx(i), y + dir_dy(i))
        && #[trigger] grid.cell(x + dir_dx(i), y + dir_dy(i)) == CellType::Wall
}

/// The candidate distance that one relaxation from a cell at distance v
/// through direction i into cell (nx, ny) proposes: the step cost on top
/// of v, minus the wall discount when (nx, ny) hugs a wall and the
/// candidate is still below the near-exit threshold.
pub open spec fn relax_candidate(grid: &Grid, nx: int, ny: int, v: int, i: int) -> int {
    if near_wall(grid, nx, ny) && v + dir_cost(i) < NEAR_EXIT_LIMIT {
        v + dir_cost(i) - WALL_DISCOUNT
    } else {
        v + dir_cost(i)
    }
}

/// A relaxation candidate never beats the value it starts from by more
/// than the discounted step, and it is monotone in that value.
pub proof fn lemma_relax_candidate_bounds(grid: &Grid, nx: int, ny: int, v1: int, v2: int, i: int)
    requires
        0 <= v1 <= v2,
        0 <= i < 8,
    ensures
        relax_candidate(grid, nx, ny, v1, i) <= relax_candidate(grid, nx, ny, v2, i),
        relax_candidate(grid, nx, ny, v1, i) >= v1 + (AXIS_COST - WALL_DISCOUNT),
{
}

/// The value of cell (x, y) is supported from below: some finite Moore
/// neighbour's own relaxation into (x, y) proposes no less than what the
/// cell already holds, so the cell never understates its cost.
pub open spec fn supported_witness(d: Seq<u64>, grid: &Grid, x: int, y: int) -> bool {
    exists|i: int| 0 <= i < 8
        && grid.in_bounds(x + dir_dx(i), y + dir_dy(i))
        && #[trigger] field_at(d, grid.spec_width(), x + dir_dx(i), y + dir_dy(i)) < UNREACHABLE
        && relax_candidate(grid, x, y,
            field_at(d, grid.spec_width(), x + dir_dx(i), y + dir_dy(i)) as int,
            rev_dir(i)) <= field_at(d, grid.spec_width(), x, y)
}

/// One relaxation step from (x, y) through direction i proposes nothing
/// better than what its target already holds.
pub open spec fn pair_settled(
    d: Seq<u64>,
    grid: &Grid,
    occ: Seq<(usize, usize)>,
    x: int,
    y: int,
    i: int,
) -> bool {
    (field_at(d, grid.spec_width(), x, y) < UNREACHABLE
        && grid.in_bounds(x + dir_dx(i), y + dir_dy(i))
        && passable(grid, occ, x + dir_dx(i), y + dir_dy(i)))
    ==> field_at(d, grid.spec_width(), x + dir_dx(i), y + dir_dy(i))
        <= relax_candidate(grid, x + dir_dx(i), y + dir_dy(i),
            field_at(d, grid.spec_width(), x, y) as int, i)
}

/// No relaxation remains anywhere: from every reached cell, every
/// passable Moore neighbour already sits at or below the candidate one
/// more step would propose. Together with the exit seeds this pins the
/// table from above: no reached cell overstates its cost, and every cell
/// on a passable path from an exit is reached.
pub open spec fn field_settled(d: Seq<u64>, grid: &Grid, occ: Seq<(usize, usize)>) -> bool {
    forall|x: int, y: int, i: int| grid.in_bounds(x, y) && 0 <= i < 8
        ==> #[trigger] pair_settled(d, grid, occ, x, y, i)
}

/// The first `lim` directions out of (x, y) are settled.
spec fn cell_settled_upto(
    d: Seq<u64>,
    grid: &Grid,
    occ: Seq<(usize, usize)>,
    x: int,
    y: int,
    lim: int,
) -> bool {
    forall|i: int| 0 <= i < lim ==> #[trigger] pair_settled(d, grid, occ, x, y, i)
}

/// The first `lim` cells of the sweep, in row-major order, are settled.
spec fn sweep_settled_upto(
    d: Seq<u64>,
    grid: &Grid,
    occ: Seq<(usize, usize)>,
    w: int,
    lim: int,
) -> bool {
    forall|j: int| 0 <= j < lim
        ==> #[trigger] cell_settled_upto(d, grid, occ, j % w, j / w, 8)
}

/// What the relaxation guarantees of a finished distance table: exits sit
/// at distance zero; every other cell the field reaches is passable,
/// costs at least one discounted step, and holds no less than some
/// neighbour's relaxation into it proposes. Together with
/// [`field_settled`] this pins the table to the unique solution of the
/// relaxation equations: each reached non-exit cell holds exactly the
/// least candidate its finite neighbours propose.
pub open spec fn field_ok(d: Seq<u64>, grid: &Grid, occ: Seq<(usize, usize)>) -> bool {
    &&& forall|x: int, y: int| grid.in_bounds(x, y) && grid.spec_exit(x, y)
            ==> #[trigger] field_at(d, grid.spec_width(), x, y) == 0
    &&& forall|x: int, y: int| grid.in_bounds(x, y) && !grid.spec_exit(x, y)
            && #[trigger] field_at(d, grid.spec_width(), x, y) < UNREACHABLE
            ==> passable(grid, occ, x, y)
                && field_at(d, grid.spec_width(), x, y) >= AXIS_COST - WALL_DISCOUNT
                && supported_witness(d, grid, x, y)
}

/// The sum of all entries of a distance table; the relaxation's
/// termination measure.
pub closed spec fn table_sum(d: Seq<u64>) -> int
    decreases d.len(),
{
    if d.len() == 0 {
        0
    } else {
        table_sum(d.drop_last()) + d.last()
    }
}

proof fn lemma_table_sum_nonneg(d: Seq<u64>)
    ensures
        table_sum(d) >= 0,
    decreases d.len(),
{
    if d.len() > 0 {
        lemma_table_sum_nonneg(d.drop_last());
    }
}

proof fn lemma_table_sum_update(d: Seq<u64>, j: int, v: u64)
    requires
        0 <= j < d.len(),
    ensures
        table_sum(d.update(j, v)) == table_sum(d) - d[j] + v,
    decreases d.len(),
{
    let u = d.update(j, v);
    if j == d.len() - 1 {
        assert(u.drop_last() =~= d.drop_last());
    } else {
        assert(u.drop_last() =~= d.drop_last().update(j, v));
        lemma_table_sum_update(d.drop_last(), j, v);
        assert(u.last() == d.last());
    }
}

/// One pending queue entry: inside the grid, finite, and never below the
/// cell's current distance.
pub open spec fn entry_ok(e: (usize, usize, u64), d: Seq<u64>, grid: &Grid) -> bool {
    grid.in_bounds(e.0 as int, e.1 as int)
        && e.2 < UNREACHABLE
        && field_at(d, grid.spec_width(), e.0 as int, e.1 as int) <= e.2
}

/// Entries of the pending queue from position `head` on are all valid.
pub open spec fn queue_ok(q: Seq<(usize, usize, u64)>, head: int, d: Seq<u64>, grid: &Grid) -> bool {
    forall|k: int| head <= k < q.len() ==> entry_ok(#[trigger] q[k], d, grid)
}

/// A freshly seeded queue entry: an exit cell at distance zero whose flat
/// index the seeding pass has already written.
spec fn seed_entry_ok(e: (usize, usize, u64), grid: &Grid, limit: int) -> bool {
    grid.in_bounds(e.0 as int, e.1 as int)
        && e.2 == 0
        && grid.spec_exit(e.0 as int, e.1 as int)
        && (e.1 as int) * grid.spec_width() + (e.0 as int) < limit
}

/// A width by height table of fixed-point distances to the nearest exit,
/// stored row-major; [`UNREACHABLE`] marks cells no exit can reach.
pub struct FloorField {
    width: usize,
    height: usize,
    distances: Vec<u64>,
}

impl FloorField {
    /// The table's width, as seen by specifications.
    pub closed spec fn spec_width(&self) -> int {
        self.width as int
    }

    /// The table's height, as seen by specifications.
    pub closed spec fn spec_height(&self) -> int {
        self.height as int
    }

    /// The raw distance table.
    pub closed spec fn spec_data(&self) -> Seq<u64> {
        self.distances@
    }

    /// The distance recorded for (x, y).
    pub open spec fn spec_dist(&self, x: int, y: int) -> u64 {
        field_at(self.spec_data(), self.spec_width(), x, y)
    }

    /// Whether (x, y) lies inside the table.
    pub open spec fn in_bounds(&self, x: int, y: int) -> bool {
        0 <= x < self.spec_width() && 0 <= y < self.spec_height()
    }

    /// The table has one entry per cell and every entry is at most the
    /// sentinel.
    pub open spec fn wf(&self) -> bool {
        &&& self.spec_data().len() == self.spec_width() * self.spec_height()
        &&& 1 <= self.spec_width() <= 0x4000
        &&& 1 <= self.spec_height() <= 0x4000
        &&& forall|j: int| 0 <= j < self.spec_data().len()
                ==> #[trigger] self.spec_data()[j] <= UNREACHABLE
    }

    /// The table matches the grid's dimensions.
    pub open spec fn dims_match(&self, grid: &Grid) -> bool {
        self.spec_width() == grid.spec_width() && self.spec_height() == grid.spec_height()
    }

    /// The table is a finished relaxation of the grid with the given
    /// cells treated as temporarily impassable: exits at zero, every
    /// reached cell descending, and no relaxation left to apply.
    pub open spec fn sound_for(&self, grid: &Grid, occ: Seq<(usize, usize)>) -> bool {
        self.wf() && self.dims_match(grid)
            && field_ok(self.spec_data(), grid, occ)
            && field_settled(self.spec_data(), grid, occ)
    }

    /// Builds the field for a grid, seeding every exit cell at distance
    /// zero and relaxing outward through every non-wall cell.
    pub fn new(grid: &Grid) -> (f: FloorField)
        requires
            grid.wf(),
            1 <= grid.spec_width(),
            1 <= grid.spec_height(),
        ensures
            f.sound_for(grid, Seq::<(usize, usize)>::empty()),
            f.dims_match(grid),
    {
        let empty: Vec<(usize, usize)> = Vec::new();
        let distances = build_field(grid, &empty);
        let f = FloorField {
            width: grid.width(),
            height: grid.height(),
            distances,
        };
        proof {
            grid.lemma_wf_dims();
            assert(empty@ =~= Seq::<(usize, usize)>::empty());
        }
        f
    }

    /// Recomputes the field from scratch with the listed cells treated as
    /// additional temporary obstacles; the previous table contributes
    /// nothing, the relaxation always restarts from the exit seeds.
    pub fn update(&mut self, grid: &Grid, occupied_cells: &Vec<(usize, usize)>)
        requires
            grid.wf(),
            old(self).dims_match(grid),
            1 <= grid.spec_width(),
            1 <= grid.spec_height(),
        ensures
            final(self).sound_for(grid, occupied_cells@),
            final(self).dims_match(grid),
    {
        proof {
            grid.lemma_wf_dims();
        }
        self.distances = build_field(grid, occupied_cells);
    }

    /// Read access to the raw distance table.
    pub fn distances(&self) -> (r: &Vec<u64>)
        ensures
            r@ == self.spec_data(),
    {
        &self.distances
    }

    /// The recorded distance of (x, y); [`UNREACHABLE`] when no exit
    /// reaches the cell.
    pub fn distance_at(&self, x: usize, y: usize) -> (r: u64)
        requires
            self.wf(),
            self.in_bounds(x as int, y as int),
        ensures
            r == self.spec_dist(x as int, y as int),
    {
        proof {
            lemma_grid_size(self.spec_width(), self.spec_height());
            lemma_flat_index(self.spec_width(), self.spec_height(), x as int, y as int);
        }
        self.distances[y * self.width + x]
    }

    /// Scans the neighbours of (x, y) cardinal directions first and
    /// returns the offset of the first neighbour achieving the lowest
    /// distance, provided it improves on the cell's own distance; nothing
    /// when the cell is unreached or no neighbour improves on it.
    pub fn get_best_direction(&self, x: usize, y: usize) -> (r: Option<(i32, i32)>)
        requires
            self.wf(),
            self.in_bounds(x as int, y as int),
        ensures
            match r {
                None => self.spec_dist(x as int, y as int) == UNREACHABLE
                    || forall|j: int| 0 <= j < 8
                        && self.in_bounds(x + dir_dx(j), y + dir_dy(j))
                        ==> #[trigger] self.spec_dist(x + dir_dx(j), y + dir_dy(j))
                            >= self.spec_dist(x as int, y as int),
                Some(p) => exists|i: int| 0 <= i < 8
                    && p.0 == dir_dx(i) && p.1 == dir_dy(i)
                    && self.in_bounds(x + dir_dx(i), y + dir_dy(i))
                    && #[trigger] self.spec_dist(x + dir_dx(i), y + dir_dy(i))
                        < self.spec_dist(x as int, y as int)
                    && (forall|j: int| 0 <= j < 8
                        && self.in_bounds(x + dir_dx(j), y + dir_dy(j))
                        ==> #[trigger] self.spec_dist(x + dir_dx(j), y + dir_dy(j))
                            >= self.spec_dist(x + dir_dx(i), y + dir_dy(i)))
                    && (forall|j: int| 0 <= j < i
                        && self.in_bounds(x + dir_dx(j), y + dir_dy(j))
                        ==> #[trigger] self.spec_dist(x + dir_dx(j), y + dir_dy(j))
                            > self.spec_dist(x + dir_dx(i), y + dir_dy(i))),
            },
    {
        proof {
            lemma_grid_size(self.spec_width(), self.spec_height());
            lemma_flat_index(self.spec_width(), self.spec_height(), x as int, y as int);
            assert(self.spec_data()[(y as int) * self.spec_width() + (x as int)] <= UNREACHABLE);
        }
        let current = self.distance_at(x, y);
        if current == UNREACHABLE {
            return None;
        }
        let mut best_dir: Option<(i32, i32)> = None;
        let mut best_dist: u64 = current;
        let ghost mut best_i: int = 0;
        for i in 0..8usize
            invariant
                self.wf(),
                self.in_bounds(x as int, y as int),
                x < self.spec_width(),
                y < self.spec_height(),
                current == self.spec_dist(x as int, y as int),
                current < UNREACHABLE,
                best_dir is None ==> best_dist == current && best_i == 0,
                best_dir is Some ==> {
                    &&& 0 <= best_i < i
                    &&& best_dir->Some_0.0 == dir_dx(best_i)
                    &&& best_dir->Some_0.1 == dir_dy(best_i)
                    &&& self.in_bounds(x + dir_dx(best_i), y + dir_dy(best_i))
                    &&& best_dist == self.spec_dist(x + dir_dx(best_i), y + dir_dy(best_i))
                    &&& best_dist < current
                },
                forall|j: int| 0 <= j < i && self.in_bounds(x + dir_dx(j), y + dir_dy(j))
                    ==> #[trigger] self.spec_dist(x + dir_dx(j), y + dir_dy(j)) >= best_dist,
                forall|j: int| 0 <= j < best_i && j < i
                    && self.in_bounds(x + dir_dx(j), y + dir_dy(j))
                    ==> #[trigger] self.spec_dist(x + dir_dx(j), y + dir_dy(j)) > best_dist,
        {
            match neighbor(self.width, self.height, x, y, i) {
                Some((nx, ny)) => {
                    let nd = self.distance_at(nx, ny);
                    if nd < best_dist {
                        let (dx, dy) = crate::direction::dir_delta(i);
                        best_dir = Some((dx, dy));
                        best_dist = nd;
                        proof {
                            best_i = i as int;
                        }
                    }
                },
                None => {},
            }
        }
        best_dir
    }
}

/// Whether some Moore neighbour of (x, y) is a wall.
fn is_near_wall(x: usize, y: usize, grid: &Grid) -> (r: bool)
    requires
        grid.wf(),
        x < grid.spec_width(),
        y < grid.spec_height(),
    ensures
        r == near_wall(grid, x as int, y as int),
{
    let w = grid.width();
    let h = grid.height();
    for i in 0..8usize
        invariant
            grid.wf(),
            w == grid.spec_width(),
            h == grid.spec_height(),
            x < w,
            y < h,
            forall|j: int| 0 <= j < i
                ==> !(grid.in_bounds(x + dir_dx(j), y + dir_dy(j))
                    && #[trigger] grid.cell(x + dir_dx(j), y + dir_dy(j)) == CellType::Wall),
    {
        match neighbor(w, h, x, y, i) {
            Some((nx, ny)) => {
                match grid.get(nx, ny) {
                    Some(c) => {
                        if c == CellType::Wall {
                            return true;
                        }
                    },
                    None => {},
                }
            },
            None => {},
        }
    }
    false
}

/// Whether the occupancy list contains (x, y).
fn contains_pos(occ: &Vec<(usize, usize)>, x: usize, y: usize) -> (r: bool)
    ensures
        r == occupied_contains(occ@, x as int, y as int),
{
    let n = occ.len();
    for k in 0..n
        invariant
            n == occ@.len(),
            forall|j: int| 0 <= j < k ==> !((#[trigger] occ@[j]).0 == x && occ@[j].1 == y),
    {
        let (ox, oy) = occ[k];
        if ox == x && oy == y {
            return true;
        }
    }
    false
}

/// Seeds every exit of the grid at distance zero and relaxes outward
/// through passable cells until no candidate improves any cell, returning
/// the finished distance table.
#[verifier::loop_isolation(false)]
#[verifier::rlimit(60)]
fn build_field(grid: &Grid, occupied: &Vec<(usize, usize)>) -> (d: Vec<u64>)
    requires
        grid.wf(),
        1 <= grid.spec_width(),
        1 <= grid.spec_height(),
    ensures
        d@.len() == grid.spec_width() * grid.spec_height(),
        forall|j: int| 0 <= j < d@.len() ==> #[trigger] d@[j] <= UNREACHABLE,
        field_ok(d@, grid, occupied@),
        field_settled(d@, grid, occupied@),
{
    let w = grid.width();
    let h = grid.height();
    let ghost wi = w as int;
    let ghost hi = h as int;
    proof {
        grid.lemma_wf_dims();
        lemma_grid_size(wi, hi);
    }
    let total: usize = w * h;
    let mut d: Vec<u64> = Vec::new();
    let mut queue: Vec<(usize, usize, u64)> = Vec::new();

    // Seed: exits at zero, everything else unreached.
    for i in 0..total
        invariant
            d@.len() == i,
            forall|j: int| 0 <= j < i
                ==> #[trigger] d@[j]
                    == if grid.spec_exit(j % wi, j / wi) { 0u64 } else { UNREACHABLE },
            forall|k: int| 0 <= k < queue@.len()
                ==> seed_entry_ok(#[trigger] queue@[k], grid, i as int),
    {
        let x: usize = i % w;
        let y: usize = i / w;
        proof {
            lemma_fundamental_div_mod(i as int, wi);
            assert(wi * (y as int) <= i as int);
            assert((y as int) < hi) by (nonlinear_arith)
                requires wi > 0, wi * (y as int) <= i as int, (i as int) < wi * hi;
            assert((y as int) * wi == wi * (y as int)) by (nonlinear_arith);
            assert((y as int) * wi + (x as int) == i as int);
        }
        if grid.is_exit(x, y) {
            d.push(0);
            queue.push((x, y, 0));
        } else {
            d.push(UNREACHABLE);
        }
    }

    proof {
        assert forall|x: int, y: int| grid.in_bounds(x, y)
            implies #[trigger] field_at(d@, wi, x, y)
                == if grid.spec_exit(x, y) { 0u64 } else { UNREACHABLE } by {
            lemma_flat_index(wi, hi, x, y);
        }
        assert(field_ok(d@, grid, occupied@));
        assert forall|k: int| 0 <= k < queue@.len()
            implies entry_ok(#[trigger] queue@[k], d@, grid) by {
            let e = queue@[k];
            lemma_flat_index(wi, hi, e.0 as int, e.1 as int);
        }
    }

    let mut head: usize = 0;
    while head < queue.len()
        invariant
            d@.len() == wi * hi,
            forall|j: int| 0 <= j < d@.len() ==> #[trigger] d@[j] <= UNREACHABLE,
            field_ok(d@, grid, occupied@),
            queue_ok(queue@, head as int, d@, grid),
            head <= queue@.len(),
        decreases
            table_sum(d@),
            queue@.len() - head,
    {
        let entry = queue[head];
        let (x, y, qd) = entry;
        proof {
            assert(queue@[head as int] == entry);
        }
        head = head + 1;
        let ghost sum0 = table_sum(d@);
        let ghost len0 = queue@.len();
        proof {
            lemma_table_sum_nonneg(d@);
        }
        for i in 0..8usize
            invariant
                d@.len() == wi * hi,
                forall|j: int| 0 <= j < d@.len() ==> #[trigger] d@[j] <= UNREACHABLE,
                field_ok(d@, grid, occupied@),
                queue_ok(queue@, head as int, d@, grid),
                head <= queue@.len(),
                x < w,
                y < h,
                qd < UNREACHABLE,
                field_at(d@, wi, x as int, y as int) <= qd,
                table_sum(d@) <= sum0,
                queue@.len() >= len0,
                queue@.len() > len0 ==> table_sum(d@) < sum0,
        {
            match neighbor(w, h, x, y, i) {
                Some((nx, ny)) => {
                    let passable_here = match grid.get(nx, ny) {
                        Some(c) => c != CellType::Wall && !contains_pos(occupied, nx, ny),
                        None => false,
                    };
                    if passable_here {
                        let mut nd: u64 = qd + step_cost(i);
                        if nd < NEAR_EXIT_LIMIT && is_near_wall(nx, ny, grid) {
                            nd = nd - WALL_DISCOUNT;
                        }
                        proof {
                            lemma_flat_index(wi, hi, nx as int, ny as int);
                            assert(nd == relax_candidate(grid, nx as int, ny as int,
                                qd as int, i as int));
                        }
                        let idx: usize = ny * w + nx;
                        if d[idx] > nd {
                            let ghost d0 = d@;
                            d.set(idx, nd);
                            queue.push((nx, ny, nd));
                            proof {
                                lemma_table_sum_update(d0, idx as int, nd);
                                relink_field_ok(
                                    d0, d@, grid, occupied@, x as int, y as int,
                                    nx as int, ny as int, i as int, qd, nd,
                                );
                                assert forall|k: int| head <= k < queue@.len()
                                    implies entry_ok(#[trigger] queue@[k], d@, grid) by {
                                    let e = queue@[k];
                                    if k < queue@.len() - 1 {
                                        assert(entry_ok(e, d0, grid));
                                    } else {
                                        assert(e == (nx, ny, nd));
                                    }
                                }
                                assert(field_at(d@, wi, x as int, y as int) <= qd);
                            }
                        }
                    }
                },
                None => {},
            }
        }
        proof {
            lemma_table_sum_nonneg(d@);
        }
    }

    // Settle: re-scan every cell and re-apply any remaining relaxation
    // until one full pass proposes no improvement. The drained queue
    // leaves nothing to improve in practice, and the clean pass is what
    // the finished table's no-relaxation-left guarantee rests on.
    let mut again = true;
    while again
        invariant
            d@.len() == wi * hi,
            forall|j: int| 0 <= j < d@.len() ==> #[trigger] d@[j] <= UNREACHABLE,
            field_ok(d@, grid, occupied@),
            !again ==> field_settled(d@, grid, occupied@),
        decreases
            table_sum(d@),
            (if again { 1int } else { 0int }),
    {
        let mut changed = false;
        let ghost sum0 = table_sum(d@);
        proof {
            lemma_table_sum_nonneg(d@);
        }
        for idx in 0..total
            invariant
                d@.len() == wi * hi,
                forall|j: int| 0 <= j < d@.len() ==> #[trigger] d@[j] <= UNREACHABLE,
                field_ok(d@, grid, occupied@),
                table_sum(d@) <= sum0,
                changed ==> table_sum(d@) < sum0,
                !changed ==> sweep_settled_upto(d@, grid, occupied@, wi, idx as int),
        {
            let x: usize = idx % w;
            let y: usize = idx / w;
            proof {
                lemma_fundamental_div_mod(idx as int, wi);
                assert(wi * (y as int) <= idx as int);
                assert((y as int) < hi) by (nonlinear_arith)
                    requires wi > 0, wi * (y as int) <= idx as int, (idx as int) < wi * hi;
                lemma_flat_index(wi, hi, x as int, y as int);
                assert((y as int) * wi == wi * (y as int)) by (nonlinear_arith);
                assert((y as int) * wi + (x as int) == idx as int);
            }
            let here = d[idx];
            proof {
                assert(here == field_at(d@, wi, x as int, y as int));
            }
            if here < UNREACHABLE {
                for i in 0..8usize
                    invariant
                        d@.len() == wi * hi,
                        forall|j: int| 0 <= j < d@.len() ==> #[trigger] d@[j] <= UNREACHABLE,
                        field_ok(d@, grid, occupied@),
                        table_sum(d@) <= sum0,
                        changed ==> table_sum(d@) < sum0,
                        x < w,
                        y < h,
                        here < UNREACHABLE,
                        here == field_at(d@, wi, x as int, y as int),
                        !changed ==> sweep_settled_upto(d@, grid, occupied@, wi, idx as int),
                        !changed ==> cell_settled_upto(d@, grid, occupied@,
                            x as int, y as int, i as int),
                {
                    match neighbor(w, h, x, y, i) {
                        Some((nx, ny)) => {
                            let passable_here = match grid.get(nx, ny) {
                                Some(c) => c != CellType::Wall
                                    && !contains_pos(occupied, nx, ny),
                                None => false,
                            };
                            if passable_here {
                                let mut nd: u64 = here + step_cost(i);
                                if nd < NEAR_EXIT_LIMIT && is_near_wall(nx, ny, grid) {
                                    nd = nd - WALL_DISCOUNT;
                                }
                                proof {
                                    lemma_flat_index(wi, hi, nx as int, ny as int);
                                    assert(nd == relax_candidate(grid, nx as int, ny as int,
                                        here as int, i as int));
                                }
                                let nidx: usize = ny * w + nx;
                                if d[nidx] > nd {
                                    let ghost d0 = d@;
                                    d.set(nidx, nd);
                                    changed = true;
                                    proof {
                                        lemma_table_sum_update(d0, nidx as int, nd);
                                        relink_field_ok(
                                            d0, d@, grid, occupied@, x as int, y as int,
                                            nx as int, ny as int, i as int, here, nd,
                                        );
                                        assert(field_at(d@, wi, x as int, y as int) == here);
                                    }
                                } else {
                                    proof {
                                        assert(field_at(d@, wi, nx as int, ny as int) <= nd);
                                        assert(pair_settled(d@, grid, occupied@,
                                            x as int, y as int, i as int));
                                    }
                                }
                            } else {
                                proof {
                                    assert(!passable(grid, occupied@,
                                        x as int + dir_dx(i as int),
                                        y as int + dir_dy(i as int)));
                                    assert(pair_settled(d@, grid, occupied@,
                                        x as int, y as int, i as int));
                                }
                            }
                        },
                        None => {
                            proof {
                                assert(pair_settled(d@, grid, occupied@,
                                    x as int, y as int, i as int));
                            }
                        },
                    }
                }
            }
            proof {
                if !changed {
                    assert(cell_settled_upto(d@, grid, occupied@,
                        (idx as int) % wi, (idx as int) / wi, 8)) by {
                        if here < UNREACHABLE {
                            assert(cell_settled_upto(d@, grid, occupied@,
                                x as int, y as int, 8));
                        } else {
                            assert forall|i: int| 0 <= i < 8
                                implies #[trigger] pair_settled(d@, grid, occupied@,
                                    x as int, y as int, i) by {
                                assert(field_at(d@, wi, x as int, y as int) == UNREACHABLE);
                            }
                        }
                    }
                    assert(sweep_settled_upto(d@, grid, occupied@, wi, idx as int + 1));
                }
            }
        }
        proof {
            lemma_table_sum_nonneg(d@);
            if !changed {
                assert forall|x: int, y: int, i: int| grid.in_bounds(x, y) && 0 <= i < 8
                    implies #[trigger] pair_settled(d@, grid, occupied@, x, y, i) by {
                    lemma_flat_index(wi, hi, x, y);
                    let j = y * wi + x;
                    assert(cell_settled_upto(d@, grid, occupied@, j % wi, j / wi, 8));
                }
            }
        }
        again = changed;
    }
    d
}

/// After lowering one cell's distance to the candidate relaxed from an
/// adjacent cell, the field as a whole still satisfies [`field_ok`]: the
/// lowered cell is supported along the reversed direction, and every
/// other cell's supporting candidate only got cheaper.
proof fn relink_field_ok(
    d0: Seq<u64>,
    d1: Seq<u64>,
    grid: &Grid,
    occ: Seq<(usize, usize)>,
    x: int,
    y: int,
    nx: int,
    ny: int,
    i: int,
    qd: u64,
    nd: u64,
)
    requires
        grid.wf(),
        grid.spec_width() >= 1,
        grid.spec_height() >= 1,
        d0.len() == grid.spec_width() * grid.spec_height(),
        field_ok(d0, grid, occ),
        forall|j: int| 0 <= j < d0.len() ==> #[trigger] d0[j] <= UNREACHABLE,
        grid.in_bounds(x, y),
        grid.in_bounds(nx, ny),
        0 <= i < 8,
        nx == x + dir_dx(i),
        ny == y + dir_dy(i),
        passable(grid, occ, nx, ny),
        field_at(d0, grid.spec_width(), x, y) <= qd,
        qd < UNREACHABLE,
        nd == relax_candidate(grid, nx, ny, qd as int, i),
        nd < field_at(d0, grid.spec_width(), nx, ny),
        d1 == d0.update(ny * grid.spec_width() + nx, nd),
    ensures
        field_ok(d1, grid, occ),
        d1.len() == d0.len(),
        forall|j: int| 0 <= j < d1.len() ==> #[trigger] d1[j] <= UNREACHABLE,
        field_at(d1, grid.spec_width(), nx, ny) == nd,
        forall|cx: int, cy: int| grid.in_bounds(cx, cy) && !(cx == nx && cy == ny)
            ==> #[trigger] field_at(d1, grid.spec_width(), cx, cy)
                == field_at(d0, grid.spec_width(), cx, cy),
        forall|cx: int, cy: int| grid.in_bounds(cx, cy)
            ==> #[trigger] field_at(d1, grid.spec_width(), cx, cy)
                <= field_at(d0, grid.spec_width(), cx, cy),
{
    let w = grid.spec_width();
    let h = grid.spec_height();
    lemma_flat_index(w, h, nx, ny);
    lemma_relax_candidate_bounds(grid, nx, ny, qd as int, qd as int, i);
    // Distances change only at the target, and only downward.
    assert forall|cx: int, cy: int| grid.in_bounds(cx, cy) && !(cx == nx && cy == ny)
        implies #[trigger] field_at(d1, w, cx, cy) == field_at(d0, w, cx, cy) by {
        lemma_flat_index(w, h, cx, cy);
        lemma_flat_index(w, h, nx, ny);
        assert(cy * w + cx != ny * w + nx);
    }
    assert(field_at(d1, w, nx, ny) == nd);
    // The target cannot be an exit: exits sit at zero while the candidate
    // is positive, so the strict improvement test would have failed.
    assert(!grid.spec_exit(nx, ny));
    assert forall|cx: int, cy: int| grid.in_bounds(cx, cy) && !grid.spec_exit(cx, cy)
        && #[trigger] field_at(d1, w, cx, cy) < UNREACHABLE
        implies passable(grid, occ, cx, cy)
            && field_at(d1, w, cx, cy) >= AXIS_COST - WALL_DISCOUNT
            && supported_witness(d1, grid, cx, cy) by {
        if cx == nx && cy == ny {
            lemma_rev_dir(i);
            let r = rev_dir(i);
            assert(nx + dir_dx(r) == x && ny + dir_dy(r) == y);
            assert(!(x == nx && y == ny));
            assert(field_at(d1, w, x, y) == field_at(d0, w, x, y));
            assert(field_at(d1, w, x, y) < UNREACHABLE);
            lemma_relax_candidate_bounds(grid, nx, ny,
                field_at(d1, w, x, y) as int, qd as int, i);
            assert(relax_candidate(grid, nx, ny, field_at(d1, w, x, y) as int, rev_dir(r))
                <= field_at(d1, w, nx, ny));
            assert(supported_witness(d1, grid, cx, cy));
        } else {
            assert(field_at(d0, w, cx, cy) < UNREACHABLE);
            let k = choose|k: int| 0 <= k < 8
                && grid.in_bounds(cx + dir_dx(k), cy + dir_dy(k))
                && #[trigger] field_at(d0, w, cx + dir_dx(k), cy + dir_dy(k)) < UNREACHABLE
                && relax_candidate(grid, cx, cy,
                    field_at(d0, w, cx + dir_dx(k), cy + dir_dy(k)) as int,
                    rev_dir(k)) <= field_at(d0, w, cx, cy);
            lemma_rev_dir(k);
            assert(field_at(d1, w, cx + dir_dx(k), cy + dir_dy(k))
                <= field_at(d0, w, cx + dir_dx(k), cy + dir_dy(k)));
            lemma_relax_candidate_bounds(grid, cx, cy,
                field_at(d1, w, cx + dir_dx(k), cy + dir_dy(k)) as int,
                field_at(d0, w, cx + dir_dx(k), cy + dir_dy(k)) as int,
                rev_dir(k));
            assert(relax_candidate(grid, cx, cy,
                field_at(d1, w, cx + dir_dx(k), cy + dir_dy(k)) as int,
                rev_dir(k)) <= field_at(d1, w, cx, cy));
            assert(supported_witness(d1, grid, cx, cy));
        }
    }
}

/// The x coordinate after following the first k of the given directions
/// from x0.
pub open spec fn path_x(x0: int, dirs: Seq<int>, k: int) -> int
    decreases k,
{
    if k <= 0 {
        x0
    } else {
        path_x(x0, dirs, k - 1) + dir_dx(dirs[k - 1])
    }
}

/// The y coordinate after following the first k of the given directions
/// from y0.
pub open spec fn path_y(y0: int, dirs: Seq<int>, k: int) -> int
    decreases k,
{
    if k <= 0 {
        y0
    } else {
        path_y(y0, dirs, k - 1) + dir_dy(dirs[k - 1])
    }
}

/// The summed step cost of the first k of the given directions.
pub open spec fn path_cost(dirs: Seq<int>, k: int) -> int
    decreases k,
{
    if k <= 0 {
        0
    } else {
        path_cost(dirs, k - 1) + dir_cost(dirs[k - 1])
    }
}

/// A walk along the given directions from (x0, y0) that stays on
/// passable cells after every step.
pub open spec fn passable_path(
    grid: &Grid,
    occ: Seq<(usize, usize)>,
    x0: int,
    y0: int,
    dirs: Seq<int>,
) -> bool {
    forall|k: int| 0 <= k < dirs.len()
        ==> 0 <= #[trigger] dirs[k] < 8
            && passable(grid, occ, path_x(x0, dirs, k + 1), path_y(y0, dirs, k + 1))
}

/// Truncating the direction list does not change the cells and costs of
/// the steps it keeps.
proof fn lemma_path_prefix(x0: int, y0: int, dirs: Seq<int>, m: int, k: int)
    requires
        0 <= k <= m <= dirs.len(),
    ensures
        path_x(x0, dirs.subrange(0, m), k) == path_x(x0, dirs, k),
        path_y(y0, dirs.subrange(0, m), k) == path_y(y0, dirs, k),
        path_cost(dirs.subrange(0, m), k) == path_cost(dirs, k),
    decreases k,
{
    if k > 0 {
        lemma_path_prefix(x0, y0, dirs, m, k - 1);
    }
}

/// The field reaches every cell a passable walk of bounded cost can
/// reach from an exit, at no more than the walk's summed step cost. In
/// particular a cell walled off from every exit can only be
/// [`UNREACHABLE`], and an unobstructed straight line towards the exit
/// opening costs at most one axis step per cell of separation.
pub proof fn lemma_field_reaches_along_path(
    f: &FloorField,
    grid: &Grid,
    occ: Seq<(usize, usize)>,
    x0: int,
    y0: int,
    dirs: Seq<int>,
)
    requires
        f.sound_for(grid, occ),
        grid.spec_exit(x0, y0),
        passable_path(grid, occ, x0, y0, dirs),
        path_cost(dirs, dirs.len() as int) < UNREACHABLE,
    ensures
        f.spec_dist(path_x(x0, dirs, dirs.len() as int), path_y(y0, dirs, dirs.len() as int))
            <= path_cost(dirs, dirs.len() as int),
    decreases dirs.len(),
{
    let n = dirs.len() as int;
    if n == 0 {
        assert(f.spec_dist(x0, y0) == 0);
    } else {
        let prefix = dirs.subrange(0, n - 1);
        assert forall|k: int| 0 <= k < prefix.len()
            implies 0 <= #[trigger] prefix[k] < 8
                && passable(grid, occ, path_x(x0, prefix, k + 1), path_y(y0, prefix, k + 1)) by {
            lemma_path_prefix(x0, y0, dirs, n - 1, k + 1);
        }
        assert forall|k: int| 0 <= k <= n - 1
            implies path_cost(prefix, k) == #[trigger] path_cost(dirs, k)
                && path_x(x0, prefix, k) == path_x(x0, dirs, k)
                && path_y(y0, prefix, k) == path_y(y0, dirs, k) by {
            lemma_path_prefix(x0, y0, dirs, n - 1, k);
        }
        assert(path_cost(dirs, n) == path_cost(dirs, n - 1) + dir_cost(dirs[n - 1]));
        lemma_field_reaches_along_path(f, grid, occ, x0, y0, prefix);
        let px = path_x(x0, dirs, n - 1);
        let py = path_y(y0, dirs, n - 1);
        let i = dirs[n - 1];
        assert(f.spec_dist(px, py) <= path_cost(dirs, n - 1));
        assert(f.spec_dist(px, py) < UNREACHABLE);
        // The previous cell is in bounds: it is the exit itself or a
        // passable cell of the walk.
        if n - 1 == 0 {
            assert(grid.in_bounds(px, py));
        } else {
            assert(passable(grid, occ, path_x(x0, dirs, n - 1), path_y(y0, dirs, n - 1)));
        }
        assert(pair_settled(f.spec_data(), grid, occ, px, py, i));
        assert(field_at(f.spec_data(), grid.spec_width(), px + dir_dx(i), py + dir_dy(i))
            <= relax_candidate(grid, px + dir_dx(i), py + dir_dy(i),
                f.spec_dist(px, py) as int, i));
    }
}

/// Every cell the field reaches that is not itself an exit has a Moore
/// neighbour with a strictly smaller distance: the wall-adjacency
/// discount is smaller than the cheapest step cost, so the potential
/// still descends all the way to an exit.
pub proof fn lemma_field_descent(f: &FloorField, grid: &Grid, occ: Seq<(usize, usize)>, x: int, y: int)
    requires
        f.sound_for(grid, occ),
        f.in_bounds(x, y),
        !grid.spec_exit(x, y),
        f.spec_dist(x, y) < UNREACHABLE,
    ensures
        exists|i: int| 0 <= i < 8
            && grid.in_bounds(x + dir_dx(i), y + dir_dy(i))
            && #[trigger] f.spec_dist(x + dir_dx(i), y + dir_dy(i)) < f.spec_dist(x, y),
{
    assert(supported_witness(f.spec_data(), grid, x, y));
    let i = choose|i: int| 0 <= i < 8
        && grid.in_bounds(x + dir_dx(i), y + dir_dy(i))
        && #[trigger] field_at(f.spec_data(), grid.spec_width(), x + dir_dx(i), y + dir_dy(i))
            < UNREACHABLE
        && relax_candidate(grid, x, y,
            field_at(f.spec_data(), grid.spec_width(), x + dir_dx(i), y + dir_dy(i)) as int,
            rev_dir(i)) <= field_at(f.spec_data(), grid.spec_width(), x, y);
    lemma_rev_dir(i);
    lemma_relax_candidate_bounds(grid, x, y,
        field_at(f.spec_data(), grid.spec_width(), x + dir_dx(i), y + dir_dy(i)) as int,
        field_at(f.spec_data(), grid.spec_width(), x + dir_dx(i), y + dir_dy(i)) as int,
        rev_dir(i));
    assert(f.spec_dist(x + dir_dx(i), y + dir_dy(i)) < f.spec_dist(x, y));
}

} // verus!
