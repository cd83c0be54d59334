//! The simulation engine: owns the grid, the potential field, and the
//! agent population, and advances them one atomic tick at a time.
//!
//! A tick polls every agent for an intended move in a freshly randomised
//! order, resolves collisions between agents that target the same cell by
//! giving the cell to the contestant closest to an exit (earliest in the
//! randomised order on ties), commits the winning moves simultaneously,
//! removes agents that reached an exit, and re-marks occupancy on the
//! grid.

use vstd::prelude::*;
use vstd::arithmetic::div_mod::lemma_mul_mod_noop_left;
use crate::agent::{Agent, OwnCellWalk, cand_dist, cand_ok};
use crate::direction::{dir_dx, dir_dy};
use crate::floor_field::{FloorField, field_at, UNREACHABLE};
use crate::grid::{
    CellType, Grid, ObstaclePattern, layout_cell, lemma_flat_index, lemma_grid_size,
    pattern_dims_ok,
};
use crate::rng::Lcg;

verus! {

/// Why constructing a simulation can fail.
#[derive(Debug, Clone, Copy, PartialEq, Eq, Structural)]
pub enum SimError {
    /// More agents were requested than the layout has empty interior
    /// cells to hold them.
    TooManyAgents,
}

/// Whether (bx, by) is one Moore step away from (ax, ay).
pub open spec fn moore_adjacent(ax: int, ay: int, bx: int, by: int) -> bool {
    exists|i: int| 0 <= i < 8 && bx == ax + #[trigger] dir_dx(i) && by == ay + dir_dy(i)
}

/// Interior cell (x, y) of the layout is empty, so an agent may start on
/// it.
pub open spec fn interior_empty(pattern: ObstaclePattern, w: int, h: int, x: int, y: int) -> bool {
    1 <= x < w - 1 && 1 <= y < h - 1 && layout_cell(pattern, w, h, x, y) == CellType::Empty
}

/// How many of the first n cells, in row-major order, are empty interior
/// cells of the layout: the capacity available for initial placement.
pub open spec fn interior_empty_count(pattern: ObstaclePattern, w: int, h: int, n: int) -> int
    decreases n,
{
    if n <= 0 {
        0
    } else {
        interior_empty_count(pattern, w, h, n - 1)
            + if interior_empty(pattern, w, h, (n - 1) % w, (n - 1) / w) { 1int } else { 0 }
    }
}

/// The tick-start positions of a population, as a plain list.
pub open spec fn start_positions(agents: Seq<Agent>) -> Seq<(usize, usize)> {
    Seq::new(agents.len(), |k: int| (agents[k].x, agents[k].y))
}

/// Agent `a` has somewhere to go: its own cell is reached by the field
/// and some walkable Moore neighbour of it sits strictly closer to an
/// exit.
pub open spec fn wants_to_move(g: Grid, ff: Seq<u64>, a: Agent) -> bool {
    &&& field_at(ff, g.spec_width(), a.x as int, a.y as int) < UNREACHABLE
    &&& exists|i: int| 0 <= i < 8
            && #[trigger] g.spec_walkable(a.x + dir_dx(i), a.y + dir_dy(i))
            && field_at(ff, g.spec_width(), a.x + dir_dx(i), a.y + dir_dy(i))
                < field_at(ff, g.spec_width(), a.x as int, a.y as int)
}

/// The grid and the agent list agree on occupancy: no two agents share a
/// cell, every agent stands on a cell marked as occupied, and every cell
/// marked as occupied holds exactly an agent.
pub open spec fn occupancy_ok(g: Grid, agents: Seq<Agent>) -> bool {
    &&& forall|k: int, l: int| 0 <= k < l < agents.len()
            ==> !((#[trigger] agents[k]).x == (#[trigger] agents[l]).x
                && agents[k].y == agents[l].y)
    &&& forall|k: int| 0 <= k < agents.len()
            ==> g.in_bounds((#[trigger] agents[k]).x as int, agents[k].y as int)
                && g.cell(agents[k].x as int, agents[k].y as int) == CellType::Agent
    &&& forall|x: int, y: int| g.in_bounds(x, y) && #[trigger] g.cell(x, y) == CellType::Agent
            ==> exists|k: int| 0 <= k < agents.len()
                && (#[trigger] agents[k]).x == x && agents[k].y == y
}

/// The field was built from the bare layout grid: a grid value holding
/// exactly the layout's cells exists for which the field is a finished,
/// settled relaxation with no extra obstacles.
pub open spec fn field_from_layout(
    f: FloorField,
    pattern: ObstaclePattern,
    w: int,
    h: int,
) -> bool {
    exists|g: Grid| #[trigger] f.sound_for(&g, Seq::<(usize, usize)>::empty())
        && g.wf()
        && g.spec_width() == w
        && g.spec_height() == h
        && (forall|x: int, y: int| 0 <= x < w && 0 <= y < h
            ==> #[trigger] g.cell(x, y) == layout_cell(pattern, w, h, x, y))
}

/// The grid differs from its layout only by occupancy markers standing on
/// cells the layout left empty.
pub open spec fn grid_matches_layout(g: Grid, pattern: ObstaclePattern, w: int, h: int) -> bool {
    forall|x: int, y: int| g.in_bounds(x, y)
        ==> #[trigger] g.cell(x, y) == layout_cell(pattern, w, h, x, y)
            || (g.cell(x, y) == CellType::Agent
                && layout_cell(pattern, w, h, x, y) == CellType::Empty)
}

/// A triangle-wave stand-in for a sinusoid over angles in thousandths of
/// a radian: one full cycle over [0, 6283), amplitude one thousand.
pub open spec fn tri_wave(p: int) -> int {
    if p < 1571 {
        p * 1000 / 1571
    } else if p < 4712 {
        1000 - (p - 1571) * 2000 / 3141
    } else {
        -1000 + (p - 4712) * 1000 / 1571
    }
}

/// The phase-shifted activity angle of an agent on a given tick: a slow
/// wave over the tick counter, shifted by the agent's own phase offset.
pub open spec fn activity_angle(t: int, phase: int) -> int {
    (tri_wave(t * 100 % 6283) + phase * 6283 / 1000 + 6283) % 6283
}

/// Whether the activity wave lets an agent attempt a move this tick; an
/// agent failing this test may still be skipped only by a further random
/// draw.
pub open spec fn spec_should_attempt(t: int, phase: int) -> bool {
    tri_wave(activity_angle(t, phase)) > -300
}

/// The executable twin of [`tri_wave`], with its amplitude bound.
fn tri_wave_exec(p: i64) -> (r: i64)
    requires
        0 <= p < 6283,
    ensures
        r == tri_wave(p as int),
        -1000 <= r <= 1000,
{
    if p < 1571 {
        p * 1000 / 1571
    } else if p < 4712 {
        1000 - (p - 1571) * 2000 / 3141
    } else {
        -1000 + (p - 4712) * 1000 / 1571
    }
}

/// Decides the activity gate for one agent on one tick; the executable
/// twin of [`spec_should_attempt`].
fn should_attempt(t: usize, phase: u16) -> (r: bool)
    requires
        phase < 1000,
    ensures
        r == spec_should_attempt(t as int, phase as int),
{
    let reduced: u64 = (t % 6283) as u64;
    proof {
        lemma_mul_mod_noop_left(t as int, 100, 6283);
    }
    let a1: u64 = reduced * 100 % 6283;
    let tf: i64 = tri_wave_exec(a1 as i64);
    let a2: i64 = (tf + (phase as i64) * 6283 / 1000 + 6283) % 6283;
    let wave: i64 = tri_wave_exec(a2);
    wave > -300
}

/// The field distance at the start position of the contestant at order
/// position p.
pub open spec fn start_dist(
    ff: Seq<u64>,
    fw: int,
    starts: Seq<(usize, usize)>,
    order: Seq<usize>,
    p: int,
) -> u64 {
    field_at(ff, fw, starts[order[p] as int].0 as int, starts[order[p] as int].1 as int)
}

/// Position q wins the contest for `target`: it intends to move there,
/// no contestant sits strictly closer to an exit, and among contestants
/// at the same distance it comes first in the randomised order.
pub open spec fn winner_ok(
    intents: Seq<Option<(usize, usize)>>,
    starts: Seq<(usize, usize)>,
    order: Seq<usize>,
    ff: Seq<u64>,
    fw: int,
    target: (usize, usize),
    q: int,
) -> bool {
    &&& 0 <= q < intents.len()
    &&& intents[q] == Some(target)
    &&& forall|p: int| 0 <= p < intents.len() && #[trigger] intents[p] == Some(target)
            ==> start_dist(ff, fw, starts, order, q) <= start_dist(ff, fw, starts, order, p)
    &&& forall|p: int| 0 <= p < intents.len() && #[trigger] intents[p] == Some(target)
            && start_dist(ff, fw, starts, order, p) == start_dist(ff, fw, starts, order, q)
            ==> q <= p
}

/// At most one order position wins a given contest.
pub proof fn lemma_winner_unique(
    intents: Seq<Option<(usize, usize)>>,
    starts: Seq<(usize, usize)>,
    order: Seq<usize>,
    ff: Seq<u64>,
    fw: int,
    target: (usize, usize),
    q1: int,
    q2: int,
)
    requires
        winner_ok(intents, starts, order, ff, fw, target, q1),
        winner_ok(intents, starts, order, ff, fw, target, q2),
    ensures
        q1 == q2,
{
}

/// Conflict arbitration: between two contestants for the same cell, the
/// one whose current cell sits strictly closer to an exit always wins.
pub proof fn lemma_conflict_arbitration(
    intents: Seq<Option<(usize, usize)>>,
    starts: Seq<(usize, usize)>,
    order: Seq<usize>,
    ff: Seq<u64>,
    fw: int,
    target: (usize, usize),
    q: int,
    a: int,
    b: int,
)
    requires
        winner_ok(intents, starts, order, ff, fw, target, q),
        0 <= a < intents.len(),
        0 <= b < intents.len(),
        intents[a] == Some(target),
        intents[b] == Some(target),
        start_dist(ff, fw, starts, order, a) < start_dist(ff, fw, starts, order, b),
        forall|p: int| 0 <= p < intents.len() && #[trigger] intents[p] == Some(target)
            ==> p == a || p == b,
    ensures
        q == a,
{
    assert(start_dist(ff, fw, starts, order, q) <= start_dist(ff, fw, starts, order, a));
}

/// Scans the contestants for `target` in randomised order and returns the
/// winning order position: smallest current field distance, earliest
/// position on ties.
#[verifier::loop_isolation(false)]
pub fn conflict_winner(
    intents: &Vec<Option<(usize, usize)>>,
    starts: &Vec<(usize, usize)>,
    order: &Vec<usize>,
    ff: &Vec<u64>,
    fw: usize,
    fh: usize,
    target: (usize, usize),
) -> (q: usize)
    requires
        intents@.len() == order@.len(),
        starts@.len() == order@.len(),
        1 <= fw <= 0x4000,
        1 <= fh <= 0x4000,
        ff@.len() == (fw as int) * (fh as int),
        forall|p: int| 0 <= p < order@.len() ==> (#[trigger] order@[p]) < starts@.len(),
        forall|k: int| 0 <= k < starts@.len()
            ==> (#[trigger] starts@[k]).0 < fw && starts@[k].1 < fh,
        exists|p: int| 0 <= p < intents@.len() && #[trigger] intents@[p] == Some(target),
    ensures
        winner_ok(intents@, starts@, order@, ff@, fw as int, target, q as int),
{
    let n = intents.len();
    let mut found: bool = false;
    let mut best_q: usize = 0;
    let mut best_d: u64 = 0;
    for p in 0..n
        invariant
            found ==> best_q < p
                && intents@[best_q as int] == Some(target)
                && best_d == start_dist(ff@, fw as int, starts@, order@, best_q as int),
            found ==> forall|p2: int| 0 <= p2 < p && #[trigger] intents@[p2] == Some(target)
                ==> best_d <= start_dist(ff@, fw as int, starts@, order@, p2)
                    && (start_dist(ff@, fw as int, starts@, order@, p2) == best_d
                        ==> best_q <= p2),
            !found ==> forall|p2: int| 0 <= p2 < p
                ==> #[trigger] intents@[p2] != Some(target),
    {
        match intents[p] {
            Some(t) => {
                if t.0 == target.0 && t.1 == target.1 {
                    let idx = order[p];
                    let (sx, sy) = starts[idx];
                    proof {
                        lemma_grid_size(fw as int, fh as int);
                        lemma_flat_index(fw as int, fh as int, sx as int, sy as int);
                    }
                    let d = ff[sy * fw + sx];
                    proof {
                        assert(d == start_dist(ff@, fw as int, starts@, order@, p as int));
                        assert(intents@[p as int] == Some(target));
                    }
                    if !found || d < best_d {
                        found = true;
                        best_q = p;
                        best_d = d;
                    }
                }
            },
            None => {},
        }
    }
    best_q
}

/// One tick's intended move for the agent at one order position: either
/// no move, or a Moore-adjacent cell, distinct from the agent's own, that
/// was walkable when intents were gathered.
pub open spec fn intent_ok(g: Grid, start: (usize, usize), intent: Option<(usize, usize)>) -> bool {
    match intent {
        None => true,
        Some(t) => {
            &&& moore_adjacent(start.0 as int, start.1 as int, t.0 as int, t.1 as int)
            &&& g.spec_walkable(t.0 as int, t.1 as int)
            &&& !(t.0 == start.0 && t.1 == start.1)
        },
    }
}

/// Value v occurs somewhere in the order list.
pub open spec fn order_has(s: Seq<usize>, v: int) -> bool {
    exists|p: int| 0 <= p < s.len() && (#[trigger] s[p]) == v
}

/// The order list holds each agent index below n exactly once.
pub open spec fn perm_ok(s: Seq<usize>, n: int) -> bool {
    &&& s.len() == n
    &&& forall|p: int| 0 <= p < n ==> (#[trigger] s[p]) < n
    &&& forall|p1: int, p2: int| 0 <= p1 < p2 < n ==> s[p1] != s[p2]
    &&& forall|v: int| 0 <= v < n ==> #[trigger] order_has(s, v)
}

/// How the tick resolved order position p: no intent keeps the agent in
/// place; an intent is granted exactly when p wins the contest for its
/// target, and a losing contestant keeps its position this tick.
pub open spec fn resolved_at(
    intents: Seq<Option<(usize, usize)>>,
    starts: Seq<(usize, usize)>,
    order: Seq<usize>,
    ff: Seq<u64>,
    fw: int,
    newpos: Seq<(usize, usize)>,
    p: int,
) -> bool {
    match intents[p] {
        None => newpos[order[p] as int] == starts[order[p] as int],
        Some(t) => newpos[order[p] as int] == (
            if winner_ok(intents, starts, order, ff, fw, t, p) {
                t
            } else {
                starts[order[p] as int]
            }),
    }
}

/// What one tick did, witnessed by the randomised processing order, the
/// gathered intents, the resolved positions, and the survivors' origins:
/// every intent is lawful against the tick-start grid; an uncontested
/// move is granted, a contested cell goes to the winning contestant and
/// the losers stay; the survivors are exactly the agents whose resolved
/// cell is not an exit, kept in their original order at their resolved
/// positions with their phase offsets.
pub open spec fn tick_ok(
    old_agents: Seq<Agent>,
    g: Grid,
    ff: Seq<u64>,
    new_agents: Seq<Agent>,
    order: Seq<usize>,
    intents: Seq<Option<(usize, usize)>>,
    newpos: Seq<(usize, usize)>,
    src: Seq<int>,
) -> bool {
    let n = old_agents.len() as int;
    let starts = start_positions(old_agents);
    let fw = g.spec_width();
    &&& perm_ok(order, n)
    &&& intents.len() == n
    &&& newpos.len() == n
    &&& forall|p: int| 0 <= p < n
            ==> intent_ok(g, starts[order[p] as int], #[trigger] intents[p])
    &&& forall|p: int| 0 <= p < n
            ==> #[trigger] resolved_at(intents, starts, order, ff, fw, newpos, p)
    &&& src.len() == new_agents.len()
    &&& forall|s1: int, s2: int| 0 <= s1 < s2 < src.len() ==> src[s1] < src[s2]
    &&& forall|s: int| 0 <= s < src.len() ==> 0 <= #[trigger] src[s] < n
    &&& forall|s: int| 0 <= s < src.len()
            ==> (#[trigger] new_agents[s]).phase_offset == old_agents[src[s]].phase_offset
                && new_agents[s].x == newpos[src[s]].0
                && new_agents[s].y == newpos[src[s]].1
    &&& forall|k: int| 0 <= k < n
            ==> ((exists|s: int| 0 <= s < src.len() && #[trigger] src[s] == k)
                <==> !g.spec_exit((#[trigger] newpos[k]).0 as int, newpos[k].1 as int))
}

/// Conflict arbitration at the tick level: under a tick witness, when
/// exactly two order positions contest the same cell and one of their
/// agents stands strictly closer to an exit, the closer contestant moves
/// onto the cell and the other keeps its position.
pub proof fn lemma_tick_arbitration(
    old_agents: Seq<Agent>,
    g: Grid,
    ff: Seq<u64>,
    new_agents: Seq<Agent>,
    order: Seq<usize>,
    intents: Seq<Option<(usize, usize)>>,
    newpos: Seq<(usize, usize)>,
    src: Seq<int>,
    a: int,
    b: int,
    t: (usize, usize),
)
    requires
        tick_ok(old_agents, g, ff, new_agents, order, intents, newpos, src),
        0 <= a < intents.len(),
        0 <= b < intents.len(),
        intents[a] == Some(t),
        intents[b] == Some(t),
        start_dist(ff, g.spec_width(), start_positions(old_agents), order, a)
            < start_dist(ff, g.spec_width(), start_positions(old_agents), order, b),
        forall|p: int| 0 <= p < intents.len() && #[trigger] intents[p] == Some(t)
            ==> p == a || p == b,
    ensures
        newpos[order[a] as int] == t,
        newpos[order[b] as int] == start_positions(old_agents)[order[b] as int],
{
    let starts = start_positions(old_agents);
    let fw = g.spec_width();
    assert(winner_ok(intents, starts, order, ff, fw, t, a));
    assert(resolved_at(intents, starts, order, ff, fw, newpos, a));
    assert(!winner_ok(intents, starts, order, ff, fw, t, b));
    assert(resolved_at(intents, starts, order, ff, fw, newpos, b));
}

/// Entry a of a strictly increasing list of values from 0..n is at
/// least a.
proof fn lemma_increasing_lower(s: Seq<int>, n: int, a: int)
    requires
        s.len() == n,
        forall|a1: int, a2: int| 0 <= a1 < a2 < n ==> s[a1] < s[a2],
        forall|a1: int| 0 <= a1 < n ==> 0 <= #[trigger] s[a1] < n,
        0 <= a < n,
    ensures
        s[a] >= a,
    decreases a,
{
    if a > 0 {
        lemma_increasing_lower(s, n, a - 1);
        assert(s[a - 1] < s[a]);
    }
}

/// Entry a of a strictly increasing list of values below n is at most a.
proof fn lemma_increasing_upper(s: Seq<int>, n: int, a: int)
    requires
        s.len() == n,
        forall|a1: int, a2: int| 0 <= a1 < a2 < n ==> s[a1] < s[a2],
        forall|a1: int| 0 <= a1 < n ==> 0 <= #[trigger] s[a1] < n,
        0 <= a < n,
    ensures
        s[a] <= a,
    decreases n - a,
{
    if a < n - 1 {
        lemma_increasing_upper(s, n, a + 1);
        assert(s[a] < s[a + 1]);
    }
}

/// A strictly increasing list of n values drawn from 0..n is the
/// identity.
proof fn lemma_increasing_identity(s: Seq<int>, n: int)
    requires
        s.len() == n,
        forall|a1: int, a2: int| 0 <= a1 < a2 < n ==> s[a1] < s[a2],
        forall|a: int| 0 <= a < n ==> 0 <= #[trigger] s[a] < n,
    ensures
        forall|a: int| 0 <= a < n ==> #[trigger] s[a] == a,
{
    assert forall|a: int| 0 <= a < n implies #[trigger] s[a] == a by {
        lemma_increasing_lower(s, n, a);
        lemma_increasing_upper(s, n, a);
    }
}

/// Swapping two entries of a permutation leaves a permutation.
#[verifier::rlimit(100)]
proof fn lemma_swap_perm(before: Seq<usize>, after: Seq<usize>, n: int, t: int, j: int)
    requires
        perm_ok(before, n),
        0 <= t < n,
        0 <= j < n,
        after == before.update(t, before[j]).update(j, before[t]),
    ensures
        perm_ok(after, n),
{
    assert forall|p: int| 0 <= p < n implies (#[trigger] after[p])
        == (if p == j { before[t] } else if p == t { before[j] } else { before[p] }) by {
    }
    assert forall|p1: int, p2: int| 0 <= p1 < p2 < n
        implies after[p1] != after[p2] by {
    }
    assert forall|v: int| 0 <= v < n implies #[trigger] order_has(after, v) by {
        assert(order_has(before, v));
        let p = choose|p: int| 0 <= p < before.len() && (#[trigger] before[p]) == v;
        if p == t {
            assert(after[j] == v);
        } else if p == j {
            assert(after[t] == v);
        } else {
            assert(after[p] == v);
        }
    }
}

/// A freshly drawn processing order: the identity prefix shuffled by the
/// random source. The order only governs which random draws each agent
/// receives and how conflict ties break, never movement legality.
fn make_order(n: usize, rng: &mut Lcg) -> (order: Vec<usize>)
    ensures
        perm_ok(order@, n as int),
{
    let mut order: Vec<usize> = Vec::new();
    for t in 0..n
        invariant
            order@.len() == t,
            forall|p: int| 0 <= p < t ==> (#[trigger] order@[p]) == p,
    {
        order.push(t);
    }
    proof {
        assert forall|v: int| 0 <= v < n implies #[trigger] order_has(order@, v) by {
            assert(order@[v] == v);
        }
    }
    for t in 0..n
        invariant
            perm_ok(order@, n as int),
    {
        let span: u64 = (n - t) as u64;
        let draw = rng.below(span) as usize;
        let j = t + draw;
        let a = order[t];
        let b = order[j];
        let ghost before = order@;
        order.set(t, b);
        order.set(j, a);
        proof {
            lemma_swap_perm(before, order@, n as int, t as int, j as int);
        }
    }
    order
}

/// Gathers every agent's intended move for this tick, in the randomised
/// processing order: the activity gate and a further random draw may skip
/// an agent entirely; otherwise the configured policy proposes a cell.
#[verifier::loop_isolation(false)]
fn decide_intents(
    grid: &Grid,
    ff: &Vec<u64>,
    agents: &Vec<Agent>,
    starts: &Vec<(usize, usize)>,
    order: &Vec<usize>,
    step_count: usize,
    k_s: u64,
    use_probabilistic: bool,
    rng: &mut Lcg,
) -> (intents: Vec<Option<(usize, usize)>>)
    requires
        grid.wf(),
        3 <= grid.spec_width(),
        3 <= grid.spec_height(),
        ff@.len() == grid.spec_width() * grid.spec_height(),
        forall|j: int| 0 <= j < ff@.len() ==> #[trigger] ff@[j] <= UNREACHABLE,
        starts@.len() == agents@.len(),
        forall|k: int| 0 <= k < agents@.len()
            ==> (#[trigger] starts@[k]).0 == agents@[k].x && starts@[k].1 == agents@[k].y,
        forall|k: int| 0 <= k < agents@.len()
            ==> (#[trigger] agents@[k]).x < grid.spec_width()
                && agents@[k].y < grid.spec_height()
                && agents@[k].phase_offset < 1000,
        perm_ok(order@, agents@.len() as int),
    ensures
        intents@.len() == agents@.len(),
        forall|p: int| 0 <= p < intents@.len()
            ==> intent_ok(*grid, starts@[order@[p] as int], #[trigger] intents@[p]),
        forall|p: int| 0 <= p < intents@.len()
            && spec_should_attempt(step_count as int,
                agents@[order@[p] as int].phase_offset as int)
            && wants_to_move(*grid, ff@, agents@[order@[p] as int])
            ==> (#[trigger] intents@[p]) is Some,
{
    proof {
        grid.lemma_wf_dims();
    }
    let n = agents.len();
    let width = grid.width();
    let height = grid.height();
    let ghost wi = width as int;
    let ghost hi = height as int;
    let mut intents: Vec<Option<(usize, usize)>> = Vec::new();
    for p in 0..n
        invariant
            intents@.len() == p,
            forall|q: int| 0 <= q < p
                ==> intent_ok(*grid, starts@[order@[q] as int], #[trigger] intents@[q]),
            forall|q: int| 0 <= q < p
                && spec_should_attempt(step_count as int,
                    agents@[order@[q] as int].phase_offset as int)
                && wants_to_move(*grid, ff@, agents@[order@[q] as int])
                ==> (#[trigger] intents@[q]) is Some,
    {
        let idx = order[p];
        let agent = agents[idx];
        let gate = should_attempt(step_count, agent.phase_offset);
        let skip = if !gate { rng.below(1000) < 300 } else { false };
        if skip {
            intents.push(None);
        } else {
            let walk = OwnCellWalk { grid, own_x: agent.x, own_y: agent.y };
            let target = if use_probabilistic {
                agent.choose_next_position_probabilistic(ff, width, height, &walk, k_s, rng)
            } else {
                agent.choose_next_position(ff, width, height, &walk, rng)
            };
            proof {
                let sx = agent.x as int;
                let sy = agent.y as int;
                match target {
                    Some(t) => {
                        let i = choose|i: int|
                            #[trigger] cand_ok(&walk, wi, hi, sx, sy, i)
                            && t.0 == agent.x + dir_dx(i)
                            && t.1 == agent.y + dir_dy(i);
                        assert(moore_adjacent(sx, sy, t.0 as int, t.1 as int));
                        assert(grid.spec_walkable(t.0 as int, t.1 as int));
                    },
                    None => {
                        // An agent with a strictly improving walkable
                        // neighbour is never refused by either policy.
                        if wants_to_move(*grid, ff@, agent) {
                            let i = choose|i: int| 0 <= i < 8
                                && #[trigger] grid.spec_walkable(
                                    agent.x + dir_dx(i), agent.y + dir_dy(i))
                                && field_at(ff@, grid.spec_width(),
                                    agent.x + dir_dx(i), agent.y + dir_dy(i))
                                    < field_at(ff@, grid.spec_width(), sx, sy);
                            assert(cand_ok(&walk, wi, hi, sx, sy, i));
                            assert(cand_dist(ff@, wi, sx, sy, i)
                                < field_at(ff@, wi, sx, sy));
                            assert(false);
                        }
                    },
                }
                assert(intent_ok(*grid, starts@[idx as int], target));
            }
            intents.push(target);
        }
    }
    intents
}

/// Resolves the gathered intents: every uncontested move is granted, a
/// contested cell goes to the winning contestant, everyone else stays.
/// The returned positions, indexed like the agent list, are pairwise
/// distinct.
#[verifier::loop_isolation(false)]
#[verifier::rlimit(100)]
#[verifier::spinoff_prover]
fn resolve_moves(
    g: &Grid,
    intents: &Vec<Option<(usize, usize)>>,
    starts: &Vec<(usize, usize)>,
    order: &Vec<usize>,
    ff: &Vec<u64>,
    fw: usize,
    fh: usize,
) -> (newpos: Vec<(usize, usize)>)
    requires
        g.wf(),
        fw == g.spec_width(),
        fh == g.spec_height(),
        1 <= fw,
        1 <= fh,
        ff@.len() == (fw as int) * (fh as int),
        intents@.len() == starts@.len(),
        perm_ok(order@, starts@.len() as int),
        forall|p: int| 0 <= p < intents@.len()
            ==> intent_ok(*g, starts@[order@[p] as int], #[trigger] intents@[p]),
        forall|k: int| 0 <= k < starts@.len()
            ==> (#[trigger] starts@[k]).0 < fw && starts@[k].1 < fh,
        forall|k1: int, k2: int| 0 <= k1 < k2 < starts@.len()
            ==> !((#[trigger] starts@[k1]).0 == (#[trigger] starts@[k2]).0
                && starts@[k1].1 == starts@[k2].1),
        forall|k: int| 0 <= k < starts@.len()
            ==> g.cell((#[trigger] starts@[k]).0 as int, starts@[k].1 as int)
                == CellType::Agent,
    ensures
        newpos@.len() == starts@.len(),
        forall|k: int| 0 <= k < newpos@.len()
            ==> #[trigger] newpos@[k] == starts@[k]
                || (moore_adjacent(starts@[k].0 as int, starts@[k].1 as int,
                        newpos@[k].0 as int, newpos@[k].1 as int)
                    && g.spec_walkable(newpos@[k].0 as int, newpos@[k].1 as int)),
        forall|k1: int, k2: int| 0 <= k1 < k2 < newpos@.len()
            ==> !((#[trigger] newpos@[k1]).0 == (#[trigger] newpos@[k2]).0
                && newpos@[k1].1 == newpos@[k2].1),
        forall|p: int| 0 <= p < starts@.len()
            ==> #[trigger] resolved_at(intents@, starts@, order@, ff@, fw as int, newpos@, p),
        forall|p: int| 0 <= p < starts@.len() && (#[trigger] intents@[p]) is Some
            ==> exists|q: int| 0 <= q < starts@.len()
                && winner_ok(intents@, starts@, order@, ff@, fw as int,
                    intents@[p]->Some_0, q)
                && newpos@[order@[q] as int] == intents@[p]->Some_0,
{
    proof {
        g.lemma_wf_dims();
    }
    let n = starts.len();
    let mut newpos: Vec<(usize, usize)> = Vec::new();
    let mut moved: Vec<bool> = Vec::new();
    for k in 0..n
        invariant
            newpos@.len() == k,
            moved@.len() == k,
            forall|k2: int| 0 <= k2 < k ==> (#[trigger] newpos@[k2]) == starts@[k2],
            forall|k2: int| 0 <= k2 < k ==> !(#[trigger] moved@[k2]),
    {
        newpos.push(starts[k]);
        moved.push(false);
    }

    for p in 0..n
        invariant
            newpos@.len() == n,
            moved@.len() == n,
            forall|k: int| 0 <= k < n && !(#[trigger] moved@[k])
                ==> newpos@[k] == starts@[k],
            forall|k: int| 0 <= k < n && #[trigger] moved@[k]
                ==> exists|q: int| 0 <= q < n
                    && (#[trigger] order@[q]) == k
                    && winner_ok(intents@, starts@, order@, ff@, fw as int, newpos@[k], q as int),
            forall|p2: int| 0 <= p2 < p
                ==> #[trigger] resolved_at(intents@, starts@, order@, ff@, fw as int,
                    newpos@, p2),
            forall|p2: int| p <= p2 < n
                ==> newpos@[(#[trigger] order@[p2]) as int] == starts@[order@[p2] as int],
            forall|p2: int| 0 <= p2 < p && (#[trigger] intents@[p2]) is Some
                ==> exists|q: int| 0 <= q < n
                    && winner_ok(intents@, starts@, order@, ff@, fw as int,
                        intents@[p2]->Some_0, q),
    {
        let idx = order[p];
        match intents[p] {
            Some(t) => {
                proof {
                    assert(intents@[p as int] == Some(t));
                }
                let q = conflict_winner(intents, starts, order, ff, fw, fh, t);
                if q == p {
                    let ghost np0 = newpos@;
                    newpos.set(idx, t);
                    moved.set(idx, true);
                    proof {
                        assert(order@[p as int] == idx);
                        assert(winner_ok(intents@, starts@, order@, ff@, fw as int,
                            newpos@[idx as int], p as int));
                        assert forall|p2: int| p as int + 1 <= p2 < n
                            implies newpos@[(#[trigger] order@[p2]) as int]
                                == starts@[order@[p2] as int] by {
                            assert(order@[p2] != order@[p as int]);
                        }
                        assert forall|p2: int| 0 <= p2 < p as int
                            implies #[trigger] resolved_at(intents@, starts@, order@, ff@,
                                fw as int, newpos@, p2) by {
                            assert(order@[p2] != order@[p as int]);
                            assert(newpos@[order@[p2] as int] == np0[order@[p2] as int]);
                            assert(resolved_at(intents@, starts@, order@, ff@, fw as int,
                                np0, p2));
                        }
                        assert(resolved_at(intents@, starts@, order@, ff@, fw as int,
                            newpos@, p as int));
                    }
                } else {
                    proof {
                        if winner_ok(intents@, starts@, order@, ff@, fw as int, t, p as int) {
                            lemma_winner_unique(intents@, starts@, order@, ff@, fw as int,
                                t, q as int, p as int);
                        }
                        assert(resolved_at(intents@, starts@, order@, ff@, fw as int,
                            newpos@, p as int));
                    }
                }
            },
            None => {
                proof {
                    assert(resolved_at(intents@, starts@, order@, ff@, fw as int,
                        newpos@, p as int));
                }
            },
        }
    }

    proof {
        // Every recorded intent's contest has its winner standing on the
        // contested cell.
        assert forall|p: int| 0 <= p < n && (#[trigger] intents@[p]) is Some
            implies exists|q: int| 0 <= q < n
                && winner_ok(intents@, starts@, order@, ff@, fw as int,
                    intents@[p]->Some_0, q)
                && newpos@[order@[q] as int] == intents@[p]->Some_0 by {
            let t = intents@[p]->Some_0;
            let q = choose|q: int| 0 <= q < n
                && winner_ok(intents@, starts@, order@, ff@, fw as int, t, q);
            assert(resolved_at(intents@, starts@, order@, ff@, fw as int, newpos@, q));
            assert(newpos@[order@[q] as int] == t);
        }
    }

    proof {
        // A granted move is Moore-adjacent and was walkable.
        assert forall|k: int| 0 <= k < n
            implies #[trigger] newpos@[k] == starts@[k]
                || (moore_adjacent(starts@[k].0 as int, starts@[k].1 as int,
                        newpos@[k].0 as int, newpos@[k].1 as int)
                    && g.spec_walkable(newpos@[k].0 as int, newpos@[k].1 as int)) by {
            if moved@[k] {
                let q = choose|q: int| 0 <= q < n
                    && (#[trigger] order@[q]) == k
                    && winner_ok(intents@, starts@, order@, ff@, fw as int, newpos@[k], q);
                assert(intent_ok(*g, starts@[order@[q] as int], intents@[q]));
            }
        }
        // No two agents land on the same cell: stayers keep distinct
        // occupied cells, movers enter cells that held no agent, and two
        // movers into one cell would both have to win the same contest.
        assert forall|k1: int, k2: int| 0 <= k1 < k2 < n
            implies !((#[trigger] newpos@[k1]).0 == (#[trigger] newpos@[k2]).0
                && newpos@[k1].1 == newpos@[k2].1) by {
            if newpos@[k1].0 == newpos@[k2].0 && newpos@[k1].1 == newpos@[k2].1 {
                if moved@[k1] && moved@[k2] {
                    let q1 = choose|q: int| 0 <= q < n
                        && (#[trigger] order@[q]) == k1
                        && winner_ok(intents@, starts@, order@, ff@, fw as int, newpos@[k1], q);
                    let q2 = choose|q: int| 0 <= q < n
                        && (#[trigger] order@[q]) == k2
                        && winner_ok(intents@, starts@, order@, ff@, fw as int, newpos@[k2], q);
                    assert(newpos@[k1] == newpos@[k2]);
                    lemma_winner_unique(intents@, starts@, order@, ff@, fw as int,
                        newpos@[k1], q1, q2);
                    assert(k1 == k2);
                } else if moved@[k1] && !moved@[k2] {
                    let q1 = choose|q: int| 0 <= q < n
                        && (#[trigger] order@[q]) == k1
                        && winner_ok(intents@, starts@, order@, ff@, fw as int, newpos@[k1], q);
                    assert(intent_ok(*g, starts@[order@[q1] as int], intents@[q1]));
                    assert(g.spec_walkable(newpos@[k1].0 as int, newpos@[k1].1 as int));
                    assert(g.cell(starts@[k2].0 as int, starts@[k2].1 as int)
                        == CellType::Agent);
                } else if !moved@[k1] && moved@[k2] {
                    let q2 = choose|q: int| 0 <= q < n
                        && (#[trigger] order@[q]) == k2
                        && winner_ok(intents@, starts@, order@, ff@, fw as int, newpos@[k2], q);
                    assert(intent_ok(*g, starts@[order@[q2] as int], intents@[q2]));
                    assert(g.spec_walkable(newpos@[k2].0 as int, newpos@[k2].1 as int));
                    assert(g.cell(starts@[k1].0 as int, starts@[k1].1 as int)
                        == CellType::Agent);
                }
            }
        }
    }
    newpos
}

/// Glues the facts the tick's phases establish into [`tick_ok`], and
/// derives progress: an agent whose activity gate is open and that has a
/// strictly improving walkable neighbour forces some change in the
/// population.
#[verifier::rlimit(100)]
#[verifier::spinoff_prover]
proof fn lemma_assemble_tick(
    old_agents: Seq<Agent>,
    g: Grid,
    ff: Seq<u64>,
    new_agents: Seq<Agent>,
    order: Seq<usize>,
    intents: Seq<Option<(usize, usize)>>,
    newpos: Seq<(usize, usize)>,
    src: Seq<int>,
    starts: Seq<(usize, usize)>,
    tick: int,
)
    requires
        starts == start_positions(old_agents),
        perm_ok(order, old_agents.len() as int),
        intents.len() == old_agents.len(),
        newpos.len() == old_agents.len(),
        forall|p: int| 0 <= p < intents.len()
            ==> intent_ok(g, starts[order[p] as int], #[trigger] intents[p]),
        forall|p: int| 0 <= p < intents.len()
            ==> #[trigger] resolved_at(intents, starts, order, ff, g.spec_width(), newpos, p),
        forall|p: int| 0 <= p < intents.len()
            && spec_should_attempt(tick, old_agents[order[p] as int].phase_offset as int)
            && wants_to_move(g, ff, old_agents[order[p] as int])
            ==> (#[trigger] intents[p]) is Some,
        forall|p: int| 0 <= p < intents.len() && (#[trigger] intents[p]) is Some
            ==> exists|q: int| 0 <= q < intents.len()
                && winner_ok(intents, starts, order, ff, g.spec_width(),
                    intents[p]->Some_0, q)
                && newpos[order[q] as int] == intents[p]->Some_0,
        src.len() == new_agents.len(),
        forall|s1: int, s2: int| 0 <= s1 < s2 < src.len() ==> src[s1] < src[s2],
        forall|s: int| 0 <= s < src.len() ==> 0 <= #[trigger] src[s] < old_agents.len(),
        forall|s: int| 0 <= s < src.len()
            ==> (#[trigger] new_agents[s]).phase_offset == old_agents[src[s]].phase_offset
                && new_agents[s].x == newpos[src[s]].0
                && new_agents[s].y == newpos[src[s]].1,
        forall|k: int| 0 <= k < old_agents.len()
            ==> ((exists|s: int| 0 <= s < src.len() && #[trigger] src[s] == k)
                <==> !g.spec_exit((#[trigger] newpos[k]).0 as int, newpos[k].1 as int)),
    ensures
        tick_ok(old_agents, g, ff, new_agents, order, intents, newpos, src),
        (exists|k: int| 0 <= k < old_agents.len()
            && #[trigger] spec_should_attempt(tick, old_agents[k].phase_offset as int)
            && wants_to_move(g, ff, old_agents[k]))
            ==> new_agents != old_agents,
{
    let n = old_agents.len() as int;
    assert(tick_ok(old_agents, g, ff, new_agents, order, intents, newpos, src));
    if exists|k: int| 0 <= k < n
        && #[trigger] spec_should_attempt(tick, old_agents[k].phase_offset as int)
        && wants_to_move(g, ff, old_agents[k]) {
        let k0 = choose|k: int| 0 <= k < n
            && #[trigger] spec_should_attempt(tick, old_agents[k].phase_offset as int)
            && wants_to_move(g, ff, old_agents[k]);
        assert(order_has(order, k0));
        let p0 = choose|p: int| 0 <= p < order.len() && (#[trigger] order[p]) == k0;
        assert(intents[p0] is Some);
        let t = intents[p0]->Some_0;
        let q = choose|q: int| 0 <= q < intents.len()
            && winner_ok(intents, starts, order, ff, g.spec_width(), t, q)
            && newpos[order[q] as int] == t;
        let j = order[q] as int;
        assert(intents[q] == Some(t));
        assert(intent_ok(g, starts[j], intents[q]));
        assert(newpos[j] != starts[j]);
        if new_agents == old_agents {
            lemma_increasing_identity(src, n);
            assert(src[j] == j);
            assert(new_agents[j].x == newpos[j].0 && new_agents[j].y == newpos[j].1);
            assert(old_agents[j].x == starts[j].0 && old_agents[j].y == starts[j].1);
            assert(false);
        }
    }
}

/// Erases the occupancy marker of every listed position, leaving the
/// rest of the grid as it was: all agents are lifted off at once so
/// stale markers cannot block a legitimate move.
#[verifier::loop_isolation(false)]
fn lift_agents(grid: &mut Grid, starts: &Vec<(usize, usize)>)
    requires
        old(grid).wf(),
    ensures
        final(grid).wf(),
        final(grid).spec_width() == old(grid).spec_width(),
        final(grid).spec_height() == old(grid).spec_height(),
        forall|x: int, y: int| old(grid).in_bounds(x, y)
            ==> #[trigger] final(grid).cell(x, y) == (
                if exists|j: int| 0 <= j < starts@.len()
                    && (#[trigger] starts@[j]).0 == x && starts@[j].1 == y {
                    CellType::Empty
                } else {
                    old(grid).cell(x, y)
                }),
{
    let ghost g0 = *old(grid);
    let n = starts.len();
    for k in 0..n
        invariant
            grid.wf(),
            grid.spec_width() == g0.spec_width(),
            grid.spec_height() == g0.spec_height(),
            forall|x: int, y: int| g0.in_bounds(x, y)
                ==> #[trigger] grid.cell(x, y) == (
                    if exists|j: int| 0 <= j < k
                        && (#[trigger] starts@[j]).0 == x && starts@[j].1 == y {
                        CellType::Empty
                    } else {
                        g0.cell(x, y)
                    }),
    {
        let (sx, sy) = starts[k];
        let ghost gprev = *grid;
        grid.set(sx, sy, CellType::Empty);
        proof {
            assert forall|x: int, y: int| g0.in_bounds(x, y)
                implies #[trigger] grid.cell(x, y) == (
                    if exists|j: int| 0 <= j < k as int + 1
                        && (#[trigger] starts@[j]).0 == x && starts@[j].1 == y {
                        CellType::Empty
                    } else {
                        g0.cell(x, y)
                    }) by {
                if x == sx && y == sy {
                    assert(starts@[k as int].0 == x && starts@[k as int].1 == y);
                } else {
                    assert(grid.cell(x, y) == gprev.cell(x, y));
                    if exists|j: int| 0 <= j < k as int + 1
                        && (#[trigger] starts@[j]).0 == x && starts@[j].1 == y {
                        let j = choose|j: int| 0 <= j < k as int + 1
                            && (#[trigger] starts@[j]).0 == x && starts@[j].1 == y;
                        assert(j < k as int);
                    }
                }
            }
        }
    }
}

/// Writes an occupancy marker at every survivor's position, leaving the
/// rest of the grid as it was.
#[verifier::loop_isolation(false)]
fn mark_survivors(grid: &mut Grid, survivors: &Vec<Agent>)
    requires
        old(grid).wf(),
    ensures
        final(grid).wf(),
        final(grid).spec_width() == old(grid).spec_width(),
        final(grid).spec_height() == old(grid).spec_height(),
        forall|x: int, y: int| old(grid).in_bounds(x, y)
            ==> #[trigger] final(grid).cell(x, y) == (
                if exists|s: int| 0 <= s < survivors@.len()
                    && (#[trigger] survivors@[s]).x == x && survivors@[s].y == y {
                    CellType::Agent
                } else {
                    old(grid).cell(x, y)
                }),
{
    let ghost g0 = *old(grid);
    let m = survivors.len();
    for s in 0..m
        invariant
            grid.wf(),
            grid.spec_width() == g0.spec_width(),
            grid.spec_height() == g0.spec_height(),
            forall|x: int, y: int| g0.in_bounds(x, y)
                ==> #[trigger] grid.cell(x, y) == (
                    if exists|s2: int| 0 <= s2 < s
                        && (#[trigger] survivors@[s2]).x == x && survivors@[s2].y == y {
                        CellType::Agent
                    } else {
                        g0.cell(x, y)
                    }),
    {
        let a = survivors[s];
        let ghost gprev = *grid;
        grid.set(a.x, a.y, CellType::Agent);
        proof {
            assert forall|x: int, y: int| g0.in_bounds(x, y)
                implies #[trigger] grid.cell(x, y) == (
                    if exists|s2: int| 0 <= s2 < s as int + 1
                        && (#[trigger] survivors@[s2]).x == x && survivors@[s2].y == y {
                        CellType::Agent
                    } else {
                        g0.cell(x, y)
                    }) by {
                if x == a.x as int && y == a.y as int {
                    assert(survivors@[s as int].x == x && survivors@[s as int].y == y);
                } else {
                    assert(grid.cell(x, y) == gprev.cell(x, y));
                    if exists|s2: int| 0 <= s2 < s as int + 1
                        && (#[trigger] survivors@[s2]).x == x && survivors@[s2].y == y {
                        let s2 = choose|s2: int| 0 <= s2 < s as int + 1
                            && (#[trigger] survivors@[s2]).x == x && survivors@[s2].y == y;
                        assert(s2 < s as int);
                    }
                }
            }
        }
    }
}

/// The simulation engine: the grid, its potential field, the agent
/// population, the movement configuration, and the seedable random
/// source every draw comes from.
pub struct Simulation {
    grid: Grid,
    floor_field: FloorField,
    agents: Vec<Agent>,
    k_s: u64,
    step_count: usize,
    use_probabilistic: bool,
    rng: Lcg,
}

impl Simulation {
    /// The grid, as seen by specifications.
    pub closed spec fn spec_grid(&self) -> Grid {
        self.grid
    }

    /// The potential field, as seen by specifications.
    pub closed spec fn spec_field(&self) -> FloorField {
        self.floor_field
    }

    /// The agent population, as seen by specifications.
    pub closed spec fn spec_agents(&self) -> Seq<Agent> {
        self.agents@
    }

    /// The tick counter, as seen by specifications.
    pub closed spec fn spec_step_count(&self) -> int {
        self.step_count as int
    }

    /// Whether the probabilistic policy is configured.
    pub closed spec fn spec_probabilistic(&self) -> bool {
        self.use_probabilistic
    }

    /// The sensitivity parameter, in thousandths.
    pub closed spec fn spec_sensitivity(&self) -> int {
        self.k_s as int
    }

    /// The random source's state, as seen by specifications.
    pub closed spec fn spec_rng_state(&self) -> int {
        self.rng.spec_state()
    }

    /// The engine's invariant: a well-formed grid of workable size, a
    /// field of matching dimensions, and a population that agrees with
    /// the grid's occupancy markers.
    pub open spec fn inv(&self) -> bool {
        &&& self.spec_grid().wf()
        &&& 3 <= self.spec_grid().spec_width()
        &&& 3 <= self.spec_grid().spec_height()
        &&& self.spec_field().wf()
        &&& self.spec_field().dims_match(&self.spec_grid())
        &&& occupancy_ok(self.spec_grid(), self.spec_agents())
        &&& forall|k: int| 0 <= k < self.spec_agents().len()
                ==> (#[trigger] self.spec_agents()[k]).phase_offset < 1000
        &&& 0 <= self.spec_sensitivity()
    }

    /// No double occupancy: between ticks, no two agents share a cell and
    /// the grid's occupancy markers match the agent positions exactly.
    pub proof fn lemma_no_double_occupancy(&self)
        requires
            self.inv(),
        ensures
            forall|k: int, l: int| 0 <= k < l < self.spec_agents().len()
                ==> !((#[trigger] self.spec_agents()[k]).x == (#[trigger] self.spec_agents()[l]).x
                    && self.spec_agents()[k].y == self.spec_agents()[l].y),
            forall|k: int| 0 <= k < self.spec_agents().len()
                ==> self.spec_grid().cell(
                        (#[trigger] self.spec_agents()[k]).x as int,
                        self.spec_agents()[k].y as int,
                    ) == CellType::Agent,
            forall|x: int, y: int|
                self.spec_grid().in_bounds(x, y)
                    && #[trigger] self.spec_grid().cell(x, y) == CellType::Agent
                ==> exists|k: int| 0 <= k < self.spec_agents().len()
                    && (#[trigger] self.spec_agents()[k]).x == x
                    && self.spec_agents()[k].y == y,
    {
    }

    /// Builds a simulation over the default layout, a single pillar.
    pub fn new(
        width: usize,
        height: usize,
        num_agents: usize,
        k_s: u64,
        seed: u64,
    ) -> (r: Result<Simulation, SimError>)
        requires
            3 <= width <= 0x4000,
            3 <= height <= 0x4000,
        ensures
            match r {
                Ok(s) => s.inv()
                    && s.spec_agents().len() == num_agents
                    && s.spec_step_count() == 0
                    && s.spec_sensitivity() == k_s
                    && !s.spec_probabilistic()
                    && s.spec_grid().spec_width() == width
                    && s.spec_grid().spec_height() == height
                    && num_agents <= interior_empty_count(ObstaclePattern::Single,
                        width as int, height as int, (width as int) * (height as int))
                    && grid_matches_layout(s.spec_grid(), ObstaclePattern::Single,
                        width as int, height as int)
                    && field_from_layout(s.spec_field(), ObstaclePattern::Single,
                        width as int, height as int),
                Err(e) => e == SimError::TooManyAgents
                    && num_agents > interior_empty_count(ObstaclePattern::Single,
                        width as int, height as int, (width as int) * (height as int)),
            },
    {
        Self::new_with_pattern(width, height, num_agents, k_s, ObstaclePattern::Single, seed)
    }

    /// Builds a simulation: the grid from its layout, the field from the
    /// grid, and the requested number of agents placed on distinct empty
    /// interior cells drawn from the seeded random source. Fails fast
    /// when the layout has fewer empty interior cells than agents.
    #[verifier::loop_isolation(false)]
    #[verifier::rlimit(60)]
    pub fn new_with_pattern(
        width: usize,
        height: usize,
        num_agents: usize,
        k_s: u64,
        pattern: ObstaclePattern,
        seed: u64,
    ) -> (r: Result<Simulation, SimError>)
        requires
            pattern_dims_ok(pattern, width as int, height as int),
            3 <= width,
            3 <= height,
        ensures
            match r {
                Ok(s) => s.inv()
                    && s.spec_agents().len() == num_agents
                    && s.spec_step_count() == 0
                    && s.spec_sensitivity() == k_s
                    && !s.spec_probabilistic()
                    && s.spec_grid().spec_width() == width
                    && s.spec_grid().spec_height() == height
                    && num_agents <= interior_empty_count(pattern,
                        width as int, height as int, (width as int) * (height as int))
                    && grid_matches_layout(s.spec_grid(), pattern, width as int, height as int)
                    && field_from_layout(s.spec_field(), pattern,
                        width as int, height as int),
                Err(e) => e == SimError::TooManyAgents
                    && num_agents > interior_empty_count(pattern,
                        width as int, height as int, (width as int) * (height as int)),
            },
    {
        let ghost wi = width as int;
        let ghost hi = height as int;
        let mut grid = Grid::new_with_pattern(width, height, pattern);
        let floor_field = FloorField::new(&grid);
        let ghost layout_g = grid;
        proof {
            lemma_grid_size(wi, hi);
        }
        let total: usize = width * height;

        // Gather the empty interior cells in row-major order.
        let mut empties: Vec<(usize, usize)> = Vec::new();
        for i in 0..total
            invariant
                empties@.len() == interior_empty_count(pattern, wi, hi, i as int),
                forall|k: int| 0 <= k < empties@.len()
                    ==> interior_empty(pattern, wi, hi,
                        (#[trigger] empties@[k]).0 as int, empties@[k].1 as int),
                forall|k: int| 0 <= k < empties@.len()
                    ==> ((#[trigger] empties@[k]).1 as int) * wi + (empties@[k].0 as int)
                        < i as int,
                forall|k1: int, k2: int| 0 <= k1 < k2 < empties@.len()
                    ==> ((#[trigger] empties@[k1]).1 as int) * wi + (empties@[k1].0 as int)
                        < ((#[trigger] empties@[k2]).1 as int) * wi + (empties@[k2].0 as int),
        {
            let x: usize = i % width;
            let y: usize = i / width;
            proof {
                vstd::arithmetic::div_mod::lemma_fundamental_div_mod(i as int, wi);
                assert(wi * (y as int) <= i as int);
                assert((y as int) < hi) by (nonlinear_arith)
                    requires wi > 0, wi * (y as int) <= i as int, (i as int) < wi * hi;
                assert((y as int) * wi == wi * (y as int)) by (nonlinear_arith);
                assert((y as int) * wi + (x as int) == i as int);
            }
            if x >= 1 && x + 1 < width && y >= 1 && y + 1 < height && grid.is_empty(x, y) {
                empties.push((x, y));
            }
        }

        if num_agents > empties.len() {
            return Err(SimError::TooManyAgents);
        }

        proof {
            assert forall|k1: int, k2: int| 0 <= k1 < k2 < empties@.len()
                implies !((#[trigger] empties@[k1]).0 == (#[trigger] empties@[k2]).0
                    && empties@[k1].1 == empties@[k2].1) by {
            }
        }

        // Draw the agents' cells: a partial shuffle of the empty cells.
        let mut rng = Lcg::new(seed);
        let n_empty = empties.len();
        for t in 0..num_agents
            invariant
                empties@.len() == n_empty,
                num_agents <= n_empty,
                forall|k: int| 0 <= k < empties@.len()
                    ==> interior_empty(pattern, wi, hi,
                        (#[trigger] empties@[k]).0 as int, empties@[k].1 as int),
                forall|k1: int, k2: int| 0 <= k1 < k2 < empties@.len()
                    ==> !((#[trigger] empties@[k1]).0 == (#[trigger] empties@[k2]).0
                        && empties@[k1].1 == empties@[k2].1),
        {
            let span: u64 = (n_empty - t) as u64;
            let draw = rng.below(span) as usize;
            let j = t + draw;
            let a = empties[t];
            let b = empties[j];
            empties.set(t, b);
            empties.set(j, a);
        }

        // Place the agents and mark the grid.
        let mut agents: Vec<Agent> = Vec::new();
        for t in 0..num_agents
            invariant
                empties@.len() == n_empty,
                num_agents <= n_empty,
                grid.wf(),
                grid.spec_width() == wi,
                grid.spec_height() == hi,
                forall|k: int| 0 <= k < empties@.len()
                    ==> interior_empty(pattern, wi, hi,
                        (#[trigger] empties@[k]).0 as int, empties@[k].1 as int),
                forall|k1: int, k2: int| 0 <= k1 < k2 < empties@.len()
                    ==> !((#[trigger] empties@[k1]).0 == (#[trigger] empties@[k2]).0
                        && empties@[k1].1 == empties@[k2].1),
                agents@.len() == t,
                forall|k: int| 0 <= k < t
                    ==> (#[trigger] agents@[k]).x == empties@[k].0
                        && agents@[k].y == empties@[k].1
                        && agents@[k].phase_offset < 1000,
                forall|x: int, y: int| 0 <= x < wi && 0 <= y < hi
                    ==> #[trigger] grid.cell(x, y) == (
                        if exists|k: int| 0 <= k < t
                            && (#[trigger] empties@[k]).0 == x && empties@[k].1 == y {
                            CellType::Agent
                        } else {
                            layout_cell(pattern, wi, hi, x, y)
                        }),
        {
            let (x, y) = empties[t];
            let phase = rng.below(1000) as u16;
            agents.push(Agent::new(x, y, phase));
            grid.set(x, y, CellType::Agent);
        }

        let sim = Simulation {
            grid,
            floor_field,
            agents,
            k_s,
            step_count: 0,
            use_probabilistic: false,
            rng,
        };
        proof {
            assert forall|x: int, y: int|
                sim.spec_grid().in_bounds(x, y)
                    && #[trigger] sim.spec_grid().cell(x, y) == CellType::Agent
                implies exists|k: int| 0 <= k < sim.spec_agents().len()
                    && (#[trigger] sim.spec_agents()[k]).x == x
                    && sim.spec_agents()[k].y == y by {
                assert(layout_cell(pattern, wi, hi, x, y) != CellType::Agent);
                let k = choose|k: int| 0 <= k < num_agents
                    && (#[trigger] empties@[k]).0 == x && empties@[k].1 == y;
                assert(sim.spec_agents()[k].x == x && sim.spec_agents()[k].y == y);
            }
            assert(occupancy_ok(sim.spec_grid(), sim.spec_agents()));
            assert(sim.spec_field().sound_for(&layout_g, Seq::<(usize, usize)>::empty()));
            assert(field_from_layout(sim.spec_field(), pattern, wi, hi));
        }
        Ok(sim)
    }

    /// How many agents are still in the room.
    pub fn agent_count(&self) -> (r: usize)
        ensures
            r == self.spec_agents().len(),
    {
        self.agents.len()
    }

    /// How many ticks have been applied.
    pub fn step_count(&self) -> (r: usize)
        ensures
            r == self.spec_step_count(),
    {
        self.step_count
    }

    /// Whether the evacuation has finished: no agent remains.
    pub fn is_finished(&self) -> (r: bool)
        ensures
            r == (self.spec_agents().len() == 0),
    {
        self.agents.len() == 0
    }

    /// A read-only view of the grid, for rendering.
    pub fn grid(&self) -> (r: &Grid)
        ensures
            *r == self.spec_grid(),
    {
        &self.grid
    }

    /// A read-only view of the potential field.
    pub fn field(&self) -> (r: &FloorField)
        ensures
            *r == self.spec_field(),
    {
        &self.floor_field
    }

    /// Advances the simulation exactly one tick. With no agents left the
    /// tick is a no-op and the counter does not advance. Otherwise every
    /// agent is polled for an intent in a fresh random order, contested
    /// cells go to the contestant closest to an exit (earliest in the
    /// order on ties), all granted moves commit simultaneously, agents
    /// that reached an exit leave the simulation, and the grid's
    /// occupancy markers are rebuilt; walls and exits never change and
    /// the population never grows. The whole protocol is witnessed in
    /// the contract by a [`tick_ok`] order/intent/resolution record, and
    /// the tick cannot stand still: an agent whose activity gate is open
    /// and that has a strictly improving walkable neighbour forces the
    /// population to change.
    #[verifier::loop_isolation(false)]
    #[verifier::rlimit(100)]
    #[verifier::spinoff_prover]
    pub fn step(&mut self)
        requires
            old(self).inv(),
        ensures
            final(self).inv(),
            final(self).spec_agents().len() <= old(self).spec_agents().len(),
            old(self).spec_agents().len() == 0 ==> *final(self) == *old(self),
            old(self).spec_agents().len() > 0 ==> final(self).spec_step_count() == (
                if old(self).spec_step_count() < usize::MAX as int {
                    old(self).spec_step_count() + 1
                } else {
                    old(self).spec_step_count()
                }),
            final(self).spec_grid().spec_width() == old(self).spec_grid().spec_width(),
            final(self).spec_grid().spec_height() == old(self).spec_grid().spec_height(),
            forall|x: int, y: int| old(self).spec_grid().in_bounds(x, y)
                && ((#[trigger] old(self).spec_grid().cell(x, y)) == CellType::Wall
                    || old(self).spec_grid().cell(x, y) == CellType::Exit)
                ==> final(self).spec_grid().cell(x, y) == old(self).spec_grid().cell(x, y),
            forall|x: int, y: int| old(self).spec_grid().in_bounds(x, y)
                && ((#[trigger] old(self).spec_grid().cell(x, y)) == CellType::Empty
                    || old(self).spec_grid().cell(x, y) == CellType::Agent)
                ==> final(self).spec_grid().cell(x, y) == CellType::Empty
                    || final(self).spec_grid().cell(x, y) == CellType::Agent,
            old(self).spec_agents().len() > 0
                ==> exists|order: Seq<usize>, intents: Seq<Option<(usize, usize)>>,
                        newpos: Seq<(usize, usize)>, src: Seq<int>|
                    #[trigger] tick_ok(old(self).spec_agents(), old(self).spec_grid(),
                        old(self).spec_field().spec_data(), final(self).spec_agents(),
                        order, intents, newpos, src),
            (exists|k: int| 0 <= k < old(self).spec_agents().len()
                && #[trigger] spec_should_attempt(final(self).spec_step_count(),
                    old(self).spec_agents()[k].phase_offset as int)
                && wants_to_move(old(self).spec_grid(), old(self).spec_field().spec_data(),
                    old(self).spec_agents()[k]))
                ==> final(self).spec_agents() != old(self).spec_agents(),
            final(self).spec_field() == old(self).spec_field(),
            final(self).spec_probabilistic() == old(self).spec_probabilistic(),
            final(self).spec_sensitivity() == old(self).spec_sensitivity(),
    {
        let n = self.agents.len();
        if n == 0 {
            return;
        }
        if self.step_count < usize::MAX {
            self.step_count = self.step_count + 1;
        }
        let ghost g0 = self.grid;
        proof {
            self.grid.lemma_wf_dims();
        }
        let width = self.grid.width();
        let height = self.grid.height();

        // Snapshot the tick-start positions.
        let mut starts: Vec<(usize, usize)> = Vec::new();
        for k in 0..n
            invariant
                starts@.len() == k,
                forall|k2: int| 0 <= k2 < k
                    ==> (#[trigger] starts@[k2]).0 == old(self).spec_agents()[k2].x
                        && starts@[k2].1 == old(self).spec_agents()[k2].y,
        {
            let a = self.agents[k];
            starts.push((a.x, a.y));
        }

        // Randomised processing order, then everyone's intent against the
        // tick-start grid.
        let order = make_order(n, &mut self.rng);
        let intents = decide_intents(
            &self.grid,
            self.floor_field.distances(),
            &self.agents,
            &starts,
            &order,
            self.step_count,
            self.k_s,
            self.use_probabilistic,
            &mut self.rng,
        );

        // Resolve contested cells into final positions.
        let newpos = resolve_moves(
            &self.grid,
            &intents,
            &starts,
            &order,
            self.floor_field.distances(),
            width,
            height,
        );

        // Lift every agent off the grid, all at once, so stale occupancy
        // cannot block a legitimate move.
        lift_agents(&mut self.grid, &starts);

        // No occupancy marker survives the lift: every one sat on a
        // tick-start position.
        proof {
            assert forall|x: int, y: int| g0.in_bounds(x, y)
                implies #[trigger] self.grid.cell(x, y) != CellType::Agent by {
                if self.grid.cell(x, y) == CellType::Agent {
                    assert(g0.cell(x, y) == CellType::Agent);
                    let k = choose|k: int| 0 <= k < old(self).spec_agents().len()
                        && (#[trigger] old(self).spec_agents()[k]).x == x
                        && old(self).spec_agents()[k].y == y;
                    assert(starts@[k].0 == x && starts@[k].1 == y);
                }
            }
        }

        // Keep the agents that did not land on an exit, at their final
        // positions; the ghost source list remembers where each came from.
        let mut survivors: Vec<Agent> = Vec::new();
        let ghost mut sources: Seq<int> = Seq::empty();
        for k in 0..n
            invariant
                survivors@.len() == sources.len(),
                survivors@.len() <= k,
                forall|s: int| 0 <= s < sources.len() ==> 0 <= #[trigger] sources[s] < k,
                forall|s1: int, s2: int| 0 <= s1 < s2 < sources.len()
                    ==> sources[s1] < sources[s2],
                forall|s: int| 0 <= s < survivors@.len()
                    ==> (#[trigger] survivors@[s]).x == newpos@[sources[s]].0
                        && survivors@[s].y == newpos@[sources[s]].1
                        && survivors@[s].phase_offset
                            == old(self).spec_agents()[sources[s]].phase_offset,
                forall|s: int| 0 <= s < survivors@.len()
                    ==> !g0.spec_exit((#[trigger] survivors@[s]).x as int,
                        survivors@[s].y as int)
                        && g0.in_bounds(survivors@[s].x as int, survivors@[s].y as int),
                forall|k2: int| 0 <= k2 < k
                    ==> ((exists|s: int| 0 <= s < sources.len() && #[trigger] sources[s] == k2)
                        <==> !g0.spec_exit((#[trigger] newpos@[k2]).0 as int,
                            newpos@[k2].1 as int)),
        {
            let (nx, ny) = newpos[k];
            let ghost sources0 = sources;
            proof {
                // The final position is the old cell or a cell that was
                // walkable at tick start; either way it is in bounds and
                // its exit status is what the start grid says.
                if newpos@[k as int] == starts@[k as int] {
                    assert(g0.in_bounds(nx as int, ny as int));
                } else {
                    assert(g0.spec_walkable(nx as int, ny as int));
                }
                assert(self.grid.cell(nx as int, ny as int) == CellType::Exit
                    <==> g0.cell(nx as int, ny as int) == CellType::Exit) by {
                    if exists|j: int| 0 <= j < n
                        && (#[trigger] starts@[j]).0 == nx && starts@[j].1 == ny {
                        let j = choose|j: int| 0 <= j < n
                            && (#[trigger] starts@[j]).0 == nx && starts@[j].1 == ny;
                        assert(g0.cell(nx as int, ny as int) == CellType::Agent);
                    }
                }
            }
            if !self.grid.is_exit(nx, ny) {
                let a = self.agents[k];
                survivors.push(Agent { x: nx, y: ny, phase_offset: a.phase_offset });
                proof {
                    sources = sources.push(k as int);
                    assert(sources[sources.len() - 1] == k as int);
                    assert forall|k2: int| 0 <= k2 < k as int + 1
                        implies ((exists|s: int| 0 <= s < sources.len()
                                && #[trigger] sources[s] == k2)
                            <==> !g0.spec_exit((#[trigger] newpos@[k2]).0 as int,
                                newpos@[k2].1 as int)) by {
                        if k2 == k as int {
                            assert(sources[sources.len() - 1] == k2);
                            assert(!g0.spec_exit(newpos@[k2].0 as int, newpos@[k2].1 as int));
                        } else {
                            if exists|s: int| 0 <= s < sources0.len()
                                && #[trigger] sources0[s] == k2 {
                                let s0 = choose|s: int| 0 <= s < sources0.len()
                                    && #[trigger] sources0[s] == k2;
                                assert(sources[s0] == sources0[s0]);
                                assert(sources[s0] == k2);
                            }
                            if exists|s: int| 0 <= s < sources.len()
                                && #[trigger] sources[s] == k2 {
                                let s1 = choose|s: int| 0 <= s < sources.len()
                                    && #[trigger] sources[s] == k2;
                                assert(s1 < sources0.len());
                                assert(sources0[s1] == k2);
                            }
                        }
                    }
                }
            } else {
                proof {
                    // This agent reached an exit of the tick-start grid
                    // and leaves the simulation.
                    assert(g0.spec_exit(nx as int, ny as int));
                    assert forall|k2: int| 0 <= k2 < k as int + 1
                        implies ((exists|s: int| 0 <= s < sources.len()
                                && #[trigger] sources[s] == k2)
                            <==> !g0.spec_exit((#[trigger] newpos@[k2]).0 as int,
                                newpos@[k2].1 as int)) by {
                        if k2 == k as int {
                            if exists|s: int| 0 <= s < sources.len()
                                && #[trigger] sources[s] == k2 {
                                let s1 = choose|s: int| 0 <= s < sources.len()
                                    && #[trigger] sources[s] == k2;
                                assert(sources[s1] < k as int);
                            }
                        }
                    }
                }
            }
        }

        // Put the survivors back on the grid.
        let ghost g2 = self.grid;
        let m = survivors.len();
        mark_survivors(&mut self.grid, &survivors);

        self.agents = survivors;

        // The rebuilt grid and population agree on occupancy again.
        proof {
            assert forall|k1: int, k2: int| 0 <= k1 < k2 < self.agents@.len()
                implies !((#[trigger] self.agents@[k1]).x == (#[trigger] self.agents@[k2]).x
                    && self.agents@[k1].y == self.agents@[k2].y) by {
                assert(sources[k1] < sources[k2]);
                assert(self.agents@[k1].x == newpos@[sources[k1]].0
                    && self.agents@[k1].y == newpos@[sources[k1]].1);
                assert(self.agents@[k2].x == newpos@[sources[k2]].0
                    && self.agents@[k2].y == newpos@[sources[k2]].1);
            }
            assert forall|x: int, y: int|
                self.grid.in_bounds(x, y) && #[trigger] self.grid.cell(x, y) == CellType::Agent
                implies exists|k: int| 0 <= k < self.agents@.len()
                    && (#[trigger] self.agents@[k]).x == x && self.agents@[k].y == y by {
                if !(exists|s2: int| 0 <= s2 < m
                    && (#[trigger] self.agents@[s2]).x == x && self.agents@[s2].y == y) {
                    assert(self.grid.cell(x, y) == g2.cell(x, y));
                }
            }
            assert(occupancy_ok(self.grid, self.agents@));
            // Walls and exits survived both rewrites.
            assert forall|x: int, y: int| g0.in_bounds(x, y)
                && ((#[trigger] g0.cell(x, y)) == CellType::Wall
                    || g0.cell(x, y) == CellType::Exit)
                implies self.grid.cell(x, y) == g0.cell(x, y) by {
                if exists|s2: int| 0 <= s2 < m
                    && (#[trigger] survivors@[s2]).x == x && survivors@[s2].y == y {
                    let s2 = choose|s2: int| 0 <= s2 < m
                        && (#[trigger] survivors@[s2]).x == x && survivors@[s2].y == y;
                    let k = sources[s2];
                    if newpos@[k] == starts@[k] {
                        assert(g0.cell(x, y) == CellType::Agent);
                    } else {
                        assert(g0.spec_walkable(x, y));
                        assert(!g0.spec_exit(x, y));
                    }
                } else {
                    if exists|j: int| 0 <= j < n
                        && (#[trigger] starts@[j]).0 == x && starts@[j].1 == y {
                        let j = choose|j: int| 0 <= j < n
                            && (#[trigger] starts@[j]).0 == x && starts@[j].1 == y;
                        assert(g0.cell(x, y) == CellType::Agent);
                    }
                }
            }
            // The tick as a whole matches its specification: the order
            // is a permutation, every intent was lawful, every position
            // is winner-resolved, and the survivors stand exactly where
            // no exit was reached. From that follows progress: an open
            // activity gate with an improving neighbour forces a change.
            assert(g0 == old(self).spec_grid());
            let ghost ffdata = old(self).spec_field().spec_data();
            let ghost starts_s = start_positions(old(self).spec_agents());
            assert(starts@ =~= starts_s);
            lemma_assemble_tick(old(self).spec_agents(), g0, ffdata, self.agents@,
                order@, intents@, newpos@, sources, starts@, self.step_count as int);
        }
    }

    /// Selects the deterministic or the probabilistic movement policy for
    /// the ticks that follow.
    pub fn set_probabilistic(&mut self, on: bool)
        requires
            old(self).inv(),
        ensures
            final(self).inv(),
            final(self).spec_probabilistic() == on,
            final(self).spec_grid() == old(self).spec_grid(),
            final(self).spec_field() == old(self).spec_field(),
            final(self).spec_agents() == old(self).spec_agents(),
            final(self).spec_step_count() == old(self).spec_step_count(),
            final(self).spec_sensitivity() == old(self).spec_sensitivity(),
            final(self).spec_rng_state() == old(self).spec_rng_state(),
    {
        self.use_probabilistic = on;
    }
}

} // verus!
