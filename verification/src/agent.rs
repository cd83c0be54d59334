//! Agents and their two stateless movement policies.
//!
//! An agent is a position plus a phase offset used to desynchronise
//! movement between ticks. Both policies are pure functions of the
//! position, the potential field and a walkability predicate, plus the
//! injected random source that breaks near-ties: the deterministic policy
//! descends the field gradient choosing among near-minimal neighbours,
//! the probabilistic one samples a walkable neighbour with probability
//! weight decaying in its distance.

use vstd::prelude::*;
use crate::direction::{dir_dx, dir_dy, offset_nonneg};
use crate::floor_field::{field_at, UNREACHABLE};
use crate::grid::Grid;
use crate::rng::Lcg;

verus! {

/// A neighbour within this much of the minimum distance still counts as
/// a candidate for the deterministic policy, in thousandths of a step.
pub const TIE_TOLERANCE: u64 = 500;

/// Amplitude of the random jitter the deterministic policy adds to
/// candidate scores, in thousandths of a step.
pub const JITTER: u64 = 300;

/// A walkability predicate handed to the movement policies; the grid
/// implements it through [`OwnCellWalk`], which also admits the moving
/// agent's own cell.
pub trait Walkability {
    /// What the predicate must be able to assume of itself.
    spec fn inv(&self) -> bool;

    /// The cells the predicate admits.
    spec fn walkable(&self, x: int, y: int) -> bool;

    /// Decides whether (x, y) is admitted.
    fn is_walkable(&self, x: usize, y: usize) -> (r: bool)
        requires
            self.inv(),
        ensures
            r == self.walkable(x as int, y as int);
}

/// The grid's walkability extended with one distinguished cell: the
/// moving agent's own position, so staying put is never ruled out by the
/// predicate itself.
pub struct OwnCellWalk<'a> {
    pub grid: &'a Grid,
    pub own_x: usize,
    pub own_y: usize,
}

impl<'a> Walkability for OwnCellWalk<'a> {
    open spec fn inv(&self) -> bool {
        self.grid.wf()
    }

    open spec fn walkable(&self, x: int, y: int) -> bool {
        self.grid.spec_walkable(x, y) || (x == self.own_x && y == self.own_y)
    }

    fn is_walkable(&self, x: usize, y: usize) -> (r: bool) {
        self.grid.is_walkable(x, y) || (x == self.own_x && y == self.own_y)
    }
}

/// Neighbour i of (x, y) is a move candidate: inside the w by h grid and
/// admitted by the walkability predicate.
pub open spec fn cand_ok<W: Walkability>(walk: &W, w: int, h: int, x: int, y: int, i: int) -> bool {
    0 <= i < 8
        && 0 <= x + dir_dx(i) < w
        && 0 <= y + dir_dy(i) < h
        && walk.walkable(x + dir_dx(i), y + dir_dy(i))
}

/// The field distance of neighbour i of (x, y).
pub open spec fn cand_dist(ff: Seq<u64>, w: int, x: int, y: int, i: int) -> u64 {
    field_at(ff, w, x + dir_dx(i), y + dir_dy(i))
}

/// One recorded candidate of the deterministic policy: the neighbour in
/// direction c.3, with its coordinates and distance, within tolerance of
/// the running minimum.
spec fn cand_entry_ok<W: Walkability>(
    walk: &W,
    ff: Seq<u64>,
    w: int,
    h: int,
    sx: int,
    sy: int,
    best: u64,
    c: (usize, usize, u64, usize),
) -> bool {
    &&& cand_ok(walk, w, h, sx, sy, c.3 as int)
    &&& c.0 == sx + dir_dx(c.3 as int)
    &&& c.1 == sy + dir_dy(c.3 as int)
    &&& c.2 == cand_dist(ff, w, sx, sy, c.3 as int)
    &&& c.2 < best + TIE_TOLERANCE
}

/// One recorded candidate of the probabilistic policy: the neighbour in
/// direction m.2, with its coordinates, whose distance is finite.
spec fn move_entry_ok<W: Walkability>(
    walk: &W,
    ff: Seq<u64>,
    w: int,
    h: int,
    sx: int,
    sy: int,
    m: (usize, usize, usize),
) -> bool {
    &&& cand_ok(walk, w, h, sx, sy, m.2 as int)
    &&& m.0 == sx + dir_dx(m.2 as int)
    &&& m.1 == sy + dir_dy(m.2 as int)
    &&& cand_dist(ff, w, sx, sy, m.2 as int) < UNREACHABLE
}

/// The sampling candidates among the first n scan directions out of
/// (x, y): those whose neighbour is a walkable in-bounds cell with a
/// finite field distance, as a list of direction indices in scan order.
pub open spec fn finite_cands<W: Walkability>(
    walk: &W,
    ff: Seq<u64>,
    w: int,
    h: int,
    x: int,
    y: int,
    n: int,
) -> Seq<int>
    decreases n,
{
    if n <= 0 {
        Seq::empty()
    } else {
        let rest = finite_cands(walk, ff, w, h, x, y, n - 1);
        if cand_ok(walk, w, h, x, y, n - 1) && cand_dist(ff, w, x, y, n - 1) < UNREACHABLE {
            rest.push(n - 1)
        } else {
            rest
        }
    }
}

/// The summed decay weights of the first m listed candidate directions.
pub open spec fn weight_prefix(
    ff: Seq<u64>,
    w: int,
    x: int,
    y: int,
    dirs: Seq<int>,
    k_s: int,
    m: int,
) -> int
    decreases m,
{
    if m <= 0 {
        0
    } else {
        weight_prefix(ff, w, x, y, dirs, k_s, m - 1)
            + decay_weight_spec(k_s, cand_dist(ff, w, x, y, dirs[m - 1]) as int)
    }
}

/// A weight-prefix sum only reads the listed directions it covers, so it
/// is stable under extending the list.
proof fn lemma_weight_prefix_stable(
    ff: Seq<u64>,
    w: int,
    x: int,
    y: int,
    d1: Seq<int>,
    d2: Seq<int>,
    k_s: int,
    m: int,
)
    requires
        0 <= m <= d1.len(),
        d1.len() <= d2.len(),
        forall|j: int| 0 <= j < d1.len() ==> d1[j] == #[trigger] d2[j],
    ensures
        weight_prefix(ff, w, x, y, d1, k_s, m) == weight_prefix(ff, w, x, y, d2, k_s, m),
    decreases m,
{
    if m > 0 {
        lemma_weight_prefix_stable(ff, w, x, y, d1, d2, k_s, m - 1);
    }
}

/// The first `n` Moore neighbours of (x, y), in scan order, keeping those
/// whose coordinates are both non-negative.
pub open spec fn moore_neighbors(x: int, y: int, n: int) -> Seq<(usize, usize)>
    decreases n,
{
    if n <= 0 {
        Seq::empty()
    } else {
        let rest = moore_neighbors(x, y, n - 1);
        if x + dir_dx(n - 1) >= 0 && y + dir_dy(n - 1) >= 0 {
            rest.push(((x + dir_dx(n - 1)) as usize, (y + dir_dy(n - 1)) as usize))
        } else {
            rest
        }
    }
}

/// One pedestrian: a grid position and a phase offset, in thousandths of
/// a cycle, drawn once at creation to desynchronise movement.
#[derive(Debug, Clone, Copy, PartialEq, Eq, Structural)]
pub struct Agent {
    pub x: usize,
    pub y: usize,
    pub phase_offset: u16,
}

impl Agent {
    /// An agent at (x, y) with the given phase offset.
    pub fn new(x: usize, y: usize, phase_offset: u16) -> (r: Agent)
        requires
            phase_offset < 1000,
        ensures
            r.x == x,
            r.y == y,
            r.phase_offset == phase_offset,
    {
        Agent { x, y, phase_offset }
    }

    /// The agent's Moore neighbourhood in scan order, cardinal directions
    /// first, keeping neighbours with non-negative coordinates; upper
    /// bounds are the caller's to check.
    pub fn get_neighbors(&self) -> (r: Vec<(usize, usize)>)
        requires
            self.x < usize::MAX,
            self.y < usize::MAX,
        ensures
            r@ == moore_neighbors(self.x as int, self.y as int, 8),
    {
        let mut neighbors: Vec<(usize, usize)> = Vec::new();
        for i in 0..8usize
            invariant
                self.x < usize::MAX,
                self.y < usize::MAX,
                neighbors@ == moore_neighbors(self.x as int, self.y as int, i as int),
        {
            match offset_nonneg(self.x, self.y, i) {
                Some(p) => {
                    neighbors.push(p);
                },
                None => {},
            }
        }
        neighbors
    }

    /// The deterministic policy: follow the field gradient. Collects the
    /// walkable neighbours whose distance lies within [`TIE_TOLERANCE`]
    /// of the minimum among neighbours, then picks one of them under a
    /// small random jitter. Yields nothing when the agent's own cell is
    /// unreached or no neighbour improves on it.
    #[verifier::loop_isolation(false)]
    pub fn choose_next_position<W: Walkability>(
        &self,
        floor_field: &Vec<u64>,
        grid_width: usize,
        grid_height: usize,
        walk: &W,
        rng: &mut Lcg,
    ) -> (r: Option<(usize, usize)>)
        requires
            walk.inv(),
            1 <= grid_width <= 0x4000,
            1 <= grid_height <= 0x4000,
            floor_field@.len() == (grid_width as int) * (grid_height as int),
            forall|j: int| 0 <= j < floor_field@.len()
                ==> #[trigger] floor_field@[j] <= UNREACHABLE,
            self.x < grid_width,
            self.y < grid_height,
        ensures
            match r {
                None => field_at(floor_field@, grid_width as int, self.x as int, self.y as int)
                        == UNREACHABLE
                    || forall|i: int|
                        #[trigger] cand_ok(walk, grid_width as int, grid_height as int,
                            self.x as int, self.y as int, i)
                        ==> cand_dist(floor_field@, grid_width as int,
                                self.x as int, self.y as int, i)
                            >= field_at(floor_field@, grid_width as int,
                                self.x as int, self.y as int),
                Some(p) => {
                    &&& field_at(floor_field@, grid_width as int, self.x as int, self.y as int)
                        < UNREACHABLE
                    &&& exists|i: int|
                        #[trigger] cand_ok(walk, grid_width as int, grid_height as int,
                            self.x as int, self.y as int, i)
                        && p.0 == self.x + dir_dx(i)
                        && p.1 == self.y + dir_dy(i)
                    &&& exists|i: int|
                        #[trigger] cand_ok(walk, grid_width as int, grid_height as int,
                            self.x as int, self.y as int, i)
                        && cand_dist(floor_field@, grid_width as int,
                                self.x as int, self.y as int, i)
                            < field_at(floor_field@, grid_width as int,
                                self.x as int, self.y as int)
                    &&& forall|j: int|
                        #[trigger] cand_ok(walk, grid_width as int, grid_height as int,
                            self.x as int, self.y as int, j)
                        ==> field_at(floor_field@, grid_width as int, p.0 as int, p.1 as int)
                            < cand_dist(floor_field@, grid_width as int,
                                self.x as int, self.y as int, j) + TIE_TOLERANCE
                    &&& !(p.0 == self.x && p.1 == self.y)
                    &&& walk.walkable(p.0 as int, p.1 as int)
                    &&& p.0 < grid_width
                    &&& p.1 < grid_height
                },
            },
    {
        let ghost w = grid_width as int;
        let ghost h = grid_height as int;
        let ghost sx = self.x as int;
        let ghost sy = self.y as int;
        proof {
            crate::grid::lemma_grid_size(w, h);
            crate::grid::lemma_flat_index(w, h, sx, sy);
        }
        let current = floor_field[self.y * grid_width + self.x];
        if current == UNREACHABLE {
            return None;
        }

        let mut best: u64 = current;
        let mut improved: bool = false;
        let mut cands: Vec<(usize, usize, u64, usize)> = Vec::new();
        for i in 0..8usize
            invariant
                walk.inv(),
                1 <= grid_width <= 0x4000,
                1 <= grid_height <= 0x4000,
                floor_field@.len() == w * h,
                forall|j: int| 0 <= j < floor_field@.len()
                    ==> #[trigger] floor_field@[j] <= UNREACHABLE,
                self.x < grid_width,
                self.y < grid_height,
                w == grid_width as int,
                h == grid_height as int,
                sx == self.x as int,
                sy == self.y as int,
                current == field_at(floor_field@, w, sx, sy),
                current < UNREACHABLE,
                best <= current,
                improved <==> best < current,
                improved <==> exists|j: int| 0 <= j < i
                    && #[trigger] cand_ok(walk, w, h, sx, sy, j)
                    && cand_dist(floor_field@, w, sx, sy, j) < current,
                forall|j: int| 0 <= j < i && #[trigger] cand_ok(walk, w, h, sx, sy, j)
                    ==> cand_dist(floor_field@, w, sx, sy, j) >= best,
                improved ==> cands@.len() >= 1,
                forall|k: int| 0 <= k < cands@.len()
                    ==> cand_entry_ok(walk, floor_field@, w, h, sx, sy, best,
                        #[trigger] cands@[k]),
        {
            match crate::direction::neighbor(grid_width, grid_height, self.x, self.y, i) {
                Some((nx, ny)) => {
                    if walk.is_walkable(nx, ny) {
                        proof {
                            crate::grid::lemma_flat_index(w, h, nx as int, ny as int);
                            assert(cand_ok(walk, w, h, sx, sy, i as int));
                        }
                        let distance = floor_field[ny * grid_width + nx];
                        proof {
                            assert(cand_dist(floor_field@, w, sx, sy, i as int) == distance);
                        }
                        if distance < best {
                            best = distance;
                            improved = true;
                            cands = Vec::new();
                            cands.push((nx, ny, distance, i));
                        } else if distance < best + TIE_TOLERANCE {
                            cands.push((nx, ny, distance, i));
                        }
                    } else {
                        proof {
                            assert(!cand_ok(walk, w, h, sx, sy, i as int));
                        }
                    }
                },
                None => {
                    proof {
                        assert(!cand_ok(walk, w, h, sx, sy, i as int));
                    }
                },
            }
        }

        if !improved {
            return None;
        }

        // Jittered choice among the near-minimal candidates.
        let mut pick: usize = 0;
        let mut pick_score: u64 = cands[0].2 + rng.below(JITTER + 1);
        for k in 1..cands.len()
            invariant
                cands@.len() >= 1,
                pick < cands@.len(),
        {
            let score = cands[k].2 + rng.below(JITTER + 1);
            if score < pick_score {
                pick = k;
                pick_score = score;
            }
        }
        let chosen = cands[pick];
        proof {
            assert(cand_entry_ok(walk, floor_field@, w, h, sx, sy, best, cands@[pick as int]));
            let j = chosen.3 as int;
            assert(cand_ok(walk, w, h, sx, sy, j));
            assert(!(dir_dx(j) == 0 && dir_dy(j) == 0));
            assert(field_at(floor_field@, w, chosen.0 as int, chosen.1 as int) == chosen.2);
        }
        Some((chosen.0, chosen.1))
    }

    /// The probabilistic policy: sample one walkable neighbour with a
    /// finite field distance, weighting closer neighbours more heavily;
    /// the sensitivity parameter sharpens or flattens the weighting.
    /// Yields nothing when no neighbour has a finite distance.
    #[verifier::loop_isolation(false)]
    pub fn choose_next_position_probabilistic<W: Walkability>(
        &self,
        floor_field: &Vec<u64>,
        grid_width: usize,
        grid_height: usize,
        walk: &W,
        k_s: u64,
        rng: &mut Lcg,
    ) -> (r: Option<(usize, usize)>)
        requires
            walk.inv(),
            1 <= grid_width <= 0x4000,
            1 <= grid_height <= 0x4000,
            floor_field@.len() == (grid_width as int) * (grid_height as int),
            forall|j: int| 0 <= j < floor_field@.len()
                ==> #[trigger] floor_field@[j] <= UNREACHABLE,
            self.x < grid_width,
            self.y < grid_height,
        ensures
            match r {
                None => forall|i: int|
                    #[trigger] cand_ok(walk, grid_width as int, grid_height as int,
                        self.x as int, self.y as int, i)
                    ==> cand_dist(floor_field@, grid_width as int,
                            self.x as int, self.y as int, i) == UNREACHABLE,
                Some(p) => {
                    &&& exists|i: int|
                        #[trigger] cand_ok(walk, grid_width as int, grid_height as int,
                            self.x as int, self.y as int, i)
                        && p.0 == self.x + dir_dx(i)
                        && p.1 == self.y + dir_dy(i)
                        && cand_dist(floor_field@, grid_width as int,
                                self.x as int, self.y as int, i) < UNREACHABLE
                    &&& !(p.0 == self.x && p.1 == self.y)
                    &&& walk.walkable(p.0 as int, p.1 as int)
                    &&& p.0 < grid_width
                    &&& p.1 < grid_height
                },
            },
            // The roulette law: with the candidate directions and their
            // decay weights fixed by the inputs, one draw of the random
            // source selects exactly the candidate whose weight interval
            // the draw falls into.
            ({
                let dirs = finite_cands(walk, floor_field@, grid_width as int,
                    grid_height as int, self.x as int, self.y as int, 8);
                match r {
                    None => dirs.len() == 0,
                    Some(p) => dirs.len() > 0 && ({
                        let total = weight_prefix(floor_field@, grid_width as int,
                            self.x as int, self.y as int, dirs, k_s as int,
                            dirs.len() as int);
                        let roll = crate::rng::lcg_step(old(rng).spec_state()) % total;
                        exists|m: int| 0 <= m < dirs.len()
                            && p.0 == self.x + dir_dx(#[trigger] dirs[m])
                            && p.1 == self.y + dir_dy(dirs[m])
                            && weight_prefix(floor_field@, grid_width as int,
                                self.x as int, self.y as int, dirs, k_s as int, m) <= roll
                            && roll < weight_prefix(floor_field@, grid_width as int,
                                self.x as int, self.y as int, dirs, k_s as int, m + 1)
                    }),
                }
            }),
    {
        let ghost w = grid_width as int;
        let ghost h = grid_height as int;
        let ghost sx = self.x as int;
        let ghost sy = self.y as int;
        proof {
            crate::grid::lemma_grid_size(w, h);
        }
        let mut moves: Vec<(usize, usize, usize)> = Vec::new();
        let mut weights: Vec<u64> = Vec::new();
        let mut total: u64 = 0;
        for i in 0..8usize
            invariant
                walk.inv(),
                1 <= grid_width <= 0x4000,
                1 <= grid_height <= 0x4000,
                floor_field@.len() == w * h,
                forall|j: int| 0 <= j < floor_field@.len()
                    ==> #[trigger] floor_field@[j] <= UNREACHABLE,
                self.x < grid_width,
                self.y < grid_height,
                w == grid_width as int,
                h == grid_height as int,
                sx == self.x as int,
                sy == self.y as int,
                moves@.len() == weights@.len(),
                moves@.len() <= i,
                moves@.len() <= total,
                total <= moves@.len() * 0x100000,
                forall|k: int| 0 <= k < weights@.len() ==> 1 <= #[trigger] weights@[k],
                forall|k: int| 0 <= k < moves@.len()
                    ==> move_entry_ok(walk, floor_field@, w, h, sx, sy, #[trigger] moves@[k]),
                forall|j: int| 0 <= j < i && #[trigger] cand_ok(walk, w, h, sx, sy, j)
                    && cand_dist(floor_field@, w, sx, sy, j) < UNREACHABLE
                    ==> moves@.len() >= 1,
                moves@.len() == finite_cands(walk, floor_field@, w, h, sx, sy, i as int).len(),
                forall|k: int| 0 <= k < moves@.len()
                    ==> ((#[trigger] moves@[k]).2) as int
                        == finite_cands(walk, floor_field@, w, h, sx, sy, i as int)[k],
                forall|k: int| 0 <= k < weights@.len()
                    ==> (#[trigger] weights@[k]) == decay_weight_spec(k_s as int,
                        cand_dist(floor_field@, w, sx, sy, (moves@[k].2) as int) as int),
                total == weight_prefix(floor_field@, w, sx, sy,
                    finite_cands(walk, floor_field@, w, h, sx, sy, i as int), k_s as int,
                    moves@.len() as int),
        {
            let ghost dirs0 = finite_cands(walk, floor_field@, w, h, sx, sy, i as int);
            match crate::direction::neighbor(grid_width, grid_height, self.x, self.y, i) {
                Some((nx, ny)) => {
                    if walk.is_walkable(nx, ny) {
                        proof {
                            crate::grid::lemma_flat_index(w, h, nx as int, ny as int);
                            assert(cand_ok(walk, w, h, sx, sy, i as int));
                        }
                        let distance = floor_field[ny * grid_width + nx];
                        proof {
                            assert(cand_dist(floor_field@, w, sx, sy, i as int) == distance);
                        }
                        if distance < UNREACHABLE {
                            let weight = decay_weight(k_s, distance);
                            moves.push((nx, ny, i));
                            weights.push(weight);
                            total = total + weight;
                            proof {
                                let dirs1 = finite_cands(walk, floor_field@, w, h, sx, sy,
                                    i as int + 1);
                                assert(dirs1 == dirs0.push(i as int));
                                lemma_weight_prefix_stable(floor_field@, w, sx, sy,
                                    dirs0, dirs1, k_s as int, dirs0.len() as int);
                            }
                        } else {
                            proof {
                                assert(finite_cands(walk, floor_field@, w, h, sx, sy,
                                    i as int + 1) == dirs0);
                            }
                        }
                    } else {
                        proof {
                            assert(!cand_ok(walk, w, h, sx, sy, i as int));
                            assert(finite_cands(walk, floor_field@, w, h, sx, sy,
                                i as int + 1) == dirs0);
                        }
                    }
                },
                None => {
                    proof {
                        assert(!cand_ok(walk, w, h, sx, sy, i as int));
                        assert(finite_cands(walk, floor_field@, w, h, sx, sy,
                            i as int + 1) == dirs0);
                    }
                },
            }
        }

        if moves.len() == 0 {
            proof {
                assert forall|i: int|
                    #[trigger] cand_ok(walk, w, h, sx, sy, i)
                    implies cand_dist(floor_field@, w, sx, sy, i) == UNREACHABLE by {
                    crate::grid::lemma_flat_index(w, h, sx + dir_dx(i), sy + dir_dy(i));
                }
            }
            return None;
        }

        let mut roll: u64 = rng.below(total);
        let ghost dirs_g = finite_cands(walk, floor_field@, w, h, sx, sy, 8);
        let ghost roll0 = roll;
        let n = moves.len();
        for k in 0..n
            invariant
                roll0 < total,
                (roll as int) == (roll0 as int)
                    - weight_prefix(floor_field@, w, sx, sy, dirs_g, k_s as int, k as int),
                weight_prefix(floor_field@, w, sx, sy, dirs_g, k_s as int, k as int)
                    <= roll0 as int,
        {
            let wk = weights[k];
            if roll < wk {
                let m = moves[k];
                proof {
                    pick_move_ok(walk, floor_field@, w, h, sx, sy, moves@[k as int]);
                    assert(dirs_g[k as int] == (moves@[k as int].2) as int);
                    assert(weight_prefix(floor_field@, w, sx, sy, dirs_g, k_s as int,
                        k as int + 1)
                        == weight_prefix(floor_field@, w, sx, sy, dirs_g, k_s as int, k as int)
                            + decay_weight_spec(k_s as int,
                                cand_dist(floor_field@, w, sx, sy, dirs_g[k as int]) as int));
                    assert((roll0 as int) < weight_prefix(floor_field@, w, sx, sy, dirs_g,
                        k_s as int, k as int + 1));
                }
                return Some((m.0, m.1));
            }
            if roll >= wk {
                roll = roll - wk;
            }
        }
        proof {
            assert(weight_prefix(floor_field@, w, sx, sy, dirs_g, k_s as int, n as int)
                <= roll0 as int);
            assert(false);
        }
        // The integer weights sum exactly, so the scan above always
        // returns; this fallback mirrors the original's guard against
        // rounding residue.
        let m = moves[n - 1];
        Some((m.0, m.1))
    }
}

/// A picked move is one of the collected candidate neighbours, so it is
/// walkable, in bounds, finite, and never the agent's own cell.
proof fn pick_move_ok<W: Walkability>(
    walk: &W,
    ff: Seq<u64>,
    w: int,
    h: int,
    sx: int,
    sy: int,
    m: (usize, usize, usize),
)
    requires
        move_entry_ok(walk, ff, w, h, sx, sy, m),
    ensures
        !(m.0 == sx && m.1 == sy),
        walk.walkable(m.0 as int, m.1 as int),
        m.0 < w,
        m.1 < h,
        exists|i: int| #[trigger] cand_ok(walk, w, h, sx, sy, i)
            && m.0 == sx + dir_dx(i)
            && m.1 == sy + dir_dy(i)
            && cand_dist(ff, w, sx, sy, i) < UNREACHABLE,
{
    let j = m.2 as int;
    assert(cand_ok(walk, w, h, sx, sy, j));
    assert(!(dir_dx(j) == 0 && dir_dy(j) == 0));
}

/// An integer stand-in for an exponentially decaying weight: with the
/// sensitivity k and the distance d both in thousandths, the exponent
/// k*d/1_000_000 is converted to thousandths of a bit through the binary
/// log of e (about 1.443), and the weight is two to the twentieth, shifted
/// down by the whole bits and linearly interpolated over the fraction;
/// clamped to stay at least one so every candidate keeps a nonzero
/// chance.
pub open spec fn decay_weight_spec(k: int, d: int) -> int {
    let t = k * d * 1443 / 1_000_000;
    let shift = t / 1000;
    let frac = t % 1000;
    if shift >= 20 {
        1
    } else {
        let base = (0x100000u64 >> (shift as u64)) as int;
        let v = base - base * frac / 2000;
        if v < 1 { 1 } else { v }
    }
}

/// Computes [`decay_weight_spec`] on machine integers.
fn decay_weight(k: u64, d: u64) -> (r: u64)
    requires
        d <= UNREACHABLE,
    ensures
        r == decay_weight_spec(k as int, d as int),
        1 <= r <= 0x100000,
{
    proof {
        assert((k as int) * (d as int) * 1443
            < 0x1_0000_0000_0000_0000_0000_0000_0000_0000) by (nonlinear_arith)
            requires 0 <= k < 0x1_0000_0000_0000_0000, 0 <= d <= 0xffff_ffff_ffff;
    }
    let t128: u128 = (k as u128) * (d as u128) * 1443 / 1_000_000;
    let shift128: u128 = t128 / 1000;
    if shift128 >= 20 {
        1
    } else {
        let shift: u64 = shift128 as u64;
        let frac: u64 = (t128 % 1000) as u64;
        let base: u64 = 0x100000u64 >> shift;
        proof {
            assert(0x100000u64 >> shift >= 1 && 0x100000u64 >> shift <= 0x100000u64)
                by (bit_vector)
                requires shift < 20u64;
            assert(base * frac <= 0x100000 * 1000) by (nonlinear_arith)
                requires 0 <= base <= 0x100000, 0 <= frac < 1000;
            assert(base * frac / 2000 <= base) by (nonlinear_arith)
                requires 0 <= base, 0 <= frac < 1000;
        }
        let v = base - base * frac / 2000;
        if v < 1 { 1 } else { v }
    }
}

} // verus!
