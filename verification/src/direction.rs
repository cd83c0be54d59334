//! The Moore neighbourhood: eight directions scanned cardinal-first, the
//! fixed-point step cost of each, and bounds-checked neighbour arithmetic.

use vstd::prelude::*;

verus! {

/// Horizontal offset of direction i; the scan order is N, E, S, W, NE,
/// SE, SW, NW, so the four cardinal directions come first.
pub open spec fn dir_dx(i: int) -> int {
    if i == 0 { 0 }
    else if i == 1 { 1 }
    else if i == 2 { 0 }
    else if i == 3 { -1 }
    else if i == 4 { 1 }
    else if i == 5 { 1 }
    else if i == 6 { -1 }
    else { -1 }
}

/// Vertical offset of direction i, in the same scan order.
pub open spec fn dir_dy(i: int) -> int {
    if i == 0 { -1 }
    else if i == 1 { 0 }
    else if i == 2 { 1 }
    else if i == 3 { 0 }
    else if i == 4 { -1 }
    else if i == 5 { 1 }
    else if i == 6 { 1 }
    else { -1 }
}

/// Step cost of direction i in thousandths of a cell: 1000 along the
/// axes, 1414 (roughly a thousand times the square root of two) along
/// the diagonals.
pub open spec fn dir_cost(i: int) -> int {
    if i < 4 { 1000 } else { 1414 }
}

/// The direction pointing back the way direction i came.
pub open spec fn rev_dir(i: int) -> int {
    if i == 0 { 2 }
    else if i == 1 { 3 }
    else if i == 2 { 0 }
    else if i == 3 { 1 }
    else if i == 4 { 6 }
    else if i == 5 { 7 }
    else if i == 6 { 4 }
    else { 5 }
}

/// Reversing a direction negates both offsets, keeps the step cost, and
/// reversing twice comes back.
pub proof fn lemma_rev_dir(i: int)
    requires
        0 <= i < 8,
    ensures
        0 <= rev_dir(i) < 8,
        dir_dx(rev_dir(i)) == -dir_dx(i),
        dir_dy(rev_dir(i)) == -dir_dy(i),
        dir_cost(rev_dir(i)) == dir_cost(i),
        rev_dir(rev_dir(i)) == i,
{
}

/// The in-bounds neighbour of (x, y) in direction i inside a w by h
/// grid, or nothing when that step leaves the grid.
pub fn neighbor(w: usize, h: usize, x: usize, y: usize, i: usize) -> (r: Option<(usize, usize)>)
    requires
        x < w,
        y < h,
        i < 8,
    ensures
        match r {
            Some(p) => {
                &&& p.0 == x + dir_dx(i as int)
                &&& p.1 == y + dir_dy(i as int)
                &&& p.0 < w
                &&& p.1 < h
            },
            None => !(0 <= x + dir_dx(i as int) < w && 0 <= y + dir_dy(i as int) < h),
        },
{
    let (dx, dy) = dir_delta(i);
    let nx: usize = if dx < 0 {
        if x == 0 { return None; }
        x - 1
    } else if dx > 0 {
        if x + 1 >= w { return None; }
        x + 1
    } else {
        x
    };
    let ny: usize = if dy < 0 {
        if y == 0 { return None; }
        y - 1
    } else if dy > 0 {
        if y + 1 >= h { return None; }
        y + 1
    } else {
        y
    };
    Some((nx, ny))
}

/// The neighbour of (x, y) in direction i when both of its coordinates
/// are non-negative, with no upper bounds applied; mirrors how agents
/// enumerate their neighbourhood before the caller's own bounds check.
pub fn offset_nonneg(x: usize, y: usize, i: usize) -> (r: Option<(usize, usize)>)
    requires
        x < usize::MAX,
        y < usize::MAX,
        i < 8,
    ensures
        match r {
            Some(p) => {
                &&& p.0 == x + dir_dx(i as int)
                &&& p.1 == y + dir_dy(i as int)
            },
            None => !(0 <= x + dir_dx(i as int) && 0 <= y + dir_dy(i as int)),
        },
{
    let (dx, dy) = dir_delta(i);
    let nx: usize = if dx < 0 {
        if x == 0 { return None; }
        x - 1
    } else if dx > 0 {
        x + 1
    } else {
        x
    };
    let ny: usize = if dy < 0 {
        if y == 0 { return None; }
        y - 1
    } else if dy > 0 {
        y + 1
    } else {
        y
    };
    Some((nx, ny))
}

/// The offsets of direction i as machine integers.
pub fn dir_delta(i: usize) -> (r: (i32, i32))
    requires
        i < 8,
    ensures
        r.0 == dir_dx(i as int),
        r.1 == dir_dy(i as int),
{
    if i == 0 { (0, -1) }
    else if i == 1 { (1, 0) }
    else if i == 2 { (0, 1) }
    else if i == 3 { (-1, 0) }
    else if i == 4 { (1, -1) }
    else if i == 5 { (1, 1) }
    else if i == 6 { (-1, 1) }
    else { (-1, -1) }
}

/// The step cost of direction i as a machine integer.
pub fn step_cost(i: usize) -> (r: u64)
    requires
        i < 8,
    ensures
        r == dir_cost(i as int),
{
    if i < 4 { 1000 } else { 1414 }
}

} // verus!
