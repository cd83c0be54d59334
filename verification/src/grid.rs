//! The obstacle grid: a fixed-size map of cell kinds with a closed set of
//! named obstacle layouts and exit placements.
//!
//! Every layout is a pure function of the grid dimensions, so the final
//! kind of each cell is specified by the point function [`layout_cell`]:
//! construction stamps walls on the border, applies the layout's obstacle
//! writes, and finally punches the exits into the right-hand wall, with
//! later writes winning over earlier ones.

use vstd::prelude::*;
use vstd::arithmetic::div_mod::lemma_fundamental_div_mod_converse;

verus! {

/// The kind of one grid cell.
#[derive(Debug, Clone, Copy, PartialEq, Eq, Structural)]
pub enum CellType {
    Empty,
    Wall,
    Agent,
    Exit,
}

/// The closed set of obstacle layouts a grid can be built with.
#[derive(Debug, Clone, Copy, PartialEq, Eq, Structural)]
pub enum ObstaclePattern {
    /// No internal obstacles.
    Empty,
    /// A single pillar towards the exit side.
    Single,
    /// Two rooms divided by a wall with two doorways, plus a block in each.
    Rooms,
    /// A large block close to the exit with carved corridors around it.
    ExitObstacle,
    /// Several square obstacles of varying size spread over the room.
    MultiObstacles,
    /// A simple maze of horizontal and vertical corridors.
    Labyrinth,
    /// Two exits close to each other on the right wall.
    TwoExitsAdjacent,
    /// Two exits far apart on the right wall.
    TwoExitsFar,
}

/// Cells on the outermost rows and columns start out as walls.
pub open spec fn border_wall(w: int, h: int, x: int, y: int) -> bool {
    x == 0 || y == 0 || x == w - 1 || y == h - 1
}

/// One square obstacle centred at (cx, cy) with half-width s.
pub open spec fn square_block(cx: int, cy: int, s: int, x: int, y: int) -> bool {
    cx - s <= x <= cx + s && cy - s <= y <= cy + s
}

/// The pillar of the `Single` layout: a square block towards the exit.
pub open spec fn single_block(w: int, h: int, x: int, y: int) -> bool {
    square_block(w * 5 / 6, h / 2, 1, x, y)
}

/// The large block of the `ExitObstacle` layout.
pub open spec fn exit_obstacle_block(w: int, h: int, x: int, y: int) -> bool {
    w - 11 <= x <= w - 5 && h / 2 - 5 <= y <= h / 2 + 5
}

/// The corridors carved around the `ExitObstacle` block; these writes come
/// last in the layout and may re-open border cells.
pub open spec fn exit_obstacle_carve(w: int, h: int, x: int, y: int) -> bool {
    w - 8 <= x <= w - 5
        && (h / 2 - 8 <= y <= h / 2 - 6 || h / 2 + 6 <= y <= h / 2 + 8)
}

/// The six square obstacles of the `MultiObstacles` layout.
pub open spec fn multi_block(w: int, h: int, x: int, y: int) -> bool {
    ||| square_block(w / 5, h / 4, 2, x, y)
    ||| square_block(w / 5, 3 * h / 4, 2, x, y)
    ||| square_block(2 * w / 5, h / 2, 3, x, y)
    ||| square_block(3 * w / 5, h / 3, 1, x, y)
    ||| square_block(3 * w / 5, 2 * h / 3, 2, x, y)
    ||| square_block(4 * w / 5, h / 2, 1, x, y)
}

/// The two blocks of the `Rooms` layout, one in each room.
pub open spec fn rooms_block(w: int, h: int, x: int, y: int) -> bool {
    square_block(w / 2 / 2, h / 2 / 2, 1, x, y)
        || square_block(w / 2 / 2, h / 2 + h / 2 / 2, 1, x, y)
}

/// The doorways carved into the dividing wall of the `Rooms` layout.
pub open spec fn rooms_door(w: int, h: int, x: int, y: int) -> bool {
    x == w / 2 && (h / 3 - 2 <= y <= h / 3 + 2 || 2 * h / 3 - 2 <= y <= 2 * h / 3 + 2)
}

/// The dividing wall of the `Rooms` layout (the bottom border row is
/// skipped by the write loop).
pub open spec fn rooms_column(w: int, h: int, x: int, y: int) -> bool {
    x == w / 2 && y < h - 1
}

/// The horizontal corridor walls of the `Labyrinth` layout.
pub open spec fn labyrinth_horizontal(w: int, h: int, x: int, y: int) -> bool {
    8 <= y < h - 8 && y % 8 == 0 && 8 <= x < w - 8 && x % 12 != 6
}

/// The vertical corridor walls of the `Labyrinth` layout.
pub open spec fn labyrinth_vertical(w: int, h: int, x: int, y: int) -> bool {
    8 <= x < w - 8 && x % 12 == 0 && 8 <= y < h - 8 && y % 8 != 4
}

/// The exit cells punched into the right-hand wall, by layout: a single
/// three-cell opening at mid-height, or one of the two-exit arrangements.
pub open spec fn layout_exit(pattern: ObstaclePattern, w: int, h: int, x: int, y: int) -> bool {
    x == w - 1 && 0 <= y < h && match pattern {
        ObstaclePattern::TwoExitsAdjacent => {
            h / 2 - 3 <= y <= h / 2 - 2 || h / 2 + 1 <= y <= h / 2 + 2
        },
        ObstaclePattern::TwoExitsFar => {
            h / 4 - 1 <= y <= h / 4 || 3 * (h / 4) - 1 <= y <= 3 * (h / 4)
        },
        _ => h / 2 - 1 <= y <= h / 2 + 1,
    }
}

/// The final kind of cell (x, y) in a freshly built w by h grid: exits win
/// over every obstacle write, and within each layout the writes resolve in
/// the order construction performs them.
pub open spec fn layout_cell(pattern: ObstaclePattern, w: int, h: int, x: int, y: int) -> CellType {
    if layout_exit(pattern, w, h, x, y) {
        CellType::Exit
    } else {
        match pattern {
            ObstaclePattern::Empty
            | ObstaclePattern::TwoExitsAdjacent
            | ObstaclePattern::TwoExitsFar => {
                if border_wall(w, h, x, y) { CellType::Wall } else { CellType::Empty }
            },
            ObstaclePattern::Single => {
                if border_wall(w, h, x, y) || single_block(w, h, x, y) {
                    CellType::Wall
                } else {
                    CellType::Empty
                }
            },
            ObstaclePattern::ExitObstacle => {
                if exit_obstacle_carve(w, h, x, y) {
                    CellType::Empty
                } else if border_wall(w, h, x, y) || exit_obstacle_block(w, h, x, y) {
                    CellType::Wall
                } else {
                    CellType::Empty
                }
            },
            ObstaclePattern::MultiObstacles => {
                if border_wall(w, h, x, y) || multi_block(w, h, x, y) {
                    CellType::Wall
                } else {
                    CellType::Empty
                }
            },
            ObstaclePattern::Rooms => {
                if rooms_block(w, h, x, y) {
                    CellType::Wall
                } else if rooms_door(w, h, x, y) {
                    CellType::Empty
                } else if rooms_column(w, h, x, y) || border_wall(w, h, x, y) {
                    CellType::Wall
                } else {
                    CellType::Empty
                }
            },
            ObstaclePattern::Labyrinth => {
                if border_wall(w, h, x, y)
                    || labyrinth_horizontal(w, h, x, y)
                    || labyrinth_vertical(w, h, x, y) {
                    CellType::Wall
                } else {
                    CellType::Empty
                }
            },
        }
    }
}

/// The smallest dimensions each layout is defined for: large enough that
/// its write offsets stay in range and that no obstacle write lands on
/// the border, so border cells are walls except where the exits are
/// punched out (see [`lemma_layout_border`]); plus a generous machine cap
/// that keeps index arithmetic in `usize`.
pub open spec fn pattern_dims_ok(pattern: ObstaclePattern, w: int, h: int) -> bool {
    1 <= w <= 0x4000 && 1 <= h <= 0x4000 && match pattern {
        ObstaclePattern::Rooms => w >= 3 && h >= 10,
        ObstaclePattern::ExitObstacle => w >= 9 && h >= 19,
        ObstaclePattern::Labyrinth => w >= 8 && h >= 8,
        ObstaclePattern::TwoExitsAdjacent => h >= 6,
        ObstaclePattern::TwoExitsFar => h >= 4,
        _ => true,
    }
}

/// The border invariant of every layout: under the admitted dimensions a
/// border cell is a wall or an exit, and exits stand only on the
/// right-hand wall.
pub proof fn lemma_layout_border(pattern: ObstaclePattern, w: int, h: int, x: int, y: int)
    requires
        pattern_dims_ok(pattern, w, h),
        0 <= x < w,
        0 <= y < h,
    ensures
        border_wall(w, h, x, y)
            ==> layout_cell(pattern, w, h, x, y) == CellType::Wall
                || layout_cell(pattern, w, h, x, y) == CellType::Exit,
        layout_cell(pattern, w, h, x, y) == CellType::Exit ==> x == w - 1,
{
}

/// The cell count of a capped grid fits comfortably in a `usize`.
pub proof fn lemma_grid_size(w: int, h: int)
    requires
        0 <= w <= 0x4000,
        0 <= h <= 0x4000,
    ensures
        w * h <= 0x1000_0000,
{
    assert(w * h <= 0x1000_0000) by (nonlinear_arith)
        requires 0 <= w <= 0x4000 && 0 <= h <= 0x4000;
}

/// Row-major index of (x, y) in a grid of the given width recovers x and y.
pub proof fn lemma_flat_index(w: int, h: int, x: int, y: int)
    requires
        0 < w,
        0 <= x < w,
        0 <= y < h,
    ensures
        0 <= y * w + x < w * h,
        (y * w + x) / w == y,
        (y * w + x) % w == x,
{
    assert(0 <= y * w + x < w * h) by (nonlinear_arith)
        requires 0 < w && 0 <= x < w && 0 <= y < h;
    lemma_fundamental_div_mod_converse(y * w + x, w, y, x);
}

/// A width by height array of cells, stored row-major. The grid owns the
/// cell storage and is the authoritative record of agent occupancy between
/// simulation ticks.
pub struct Grid {
    width: usize,
    height: usize,
    cells: Vec<CellType>,
}

impl Grid {
    /// The grid's width, as seen by specifications.
    pub closed spec fn spec_width(&self) -> int {
        self.width as int
    }

    /// The grid's height, as seen by specifications.
    pub closed spec fn spec_height(&self) -> int {
        self.height as int
    }

    /// The kind of the cell at (x, y).
    pub closed spec fn cell(&self, x: int, y: int) -> CellType {
        self.cells@[y * self.spec_width() + x]
    }

    /// The cell storage holds exactly width times height cells, and the
    /// dimensions respect the machine cap construction imposes.
    pub closed spec fn wf(&self) -> bool {
        self.cells@.len() == self.spec_width() * self.spec_height()
            && self.spec_width() <= 0x4000
            && self.spec_height() <= 0x4000
    }

    /// Exports the dimension caps recorded in the well-formedness
    /// predicate, which is otherwise opaque outside this module.
    pub proof fn lemma_wf_dims(&self)
        requires
            self.wf(),
        ensures
            0 <= self.spec_width() <= 0x4000,
            0 <= self.spec_height() <= 0x4000,
    {
    }

    /// Whether (x, y) lies inside the grid.
    pub open spec fn in_bounds(&self, x: int, y: int) -> bool {
        0 <= x < self.spec_width() && 0 <= y < self.spec_height()
    }

    /// A cell an agent may stand on or move through: empty or an exit.
    pub open spec fn spec_walkable(&self, x: int, y: int) -> bool {
        self.in_bounds(x, y)
            && (self.cell(x, y) == CellType::Empty || self.cell(x, y) == CellType::Exit)
    }

    /// An exit cell.
    pub open spec fn spec_exit(&self, x: int, y: int) -> bool {
        self.in_bounds(x, y) && self.cell(x, y) == CellType::Exit
    }

    /// Builds a grid with the default layout: a single pillar.
    pub fn new(width: usize, height: usize) -> (g: Grid)
        requires
            pattern_dims_ok(ObstaclePattern::Single, width as int, height as int),
        ensures
            g.wf(),
            g.spec_width() == width,
            g.spec_height() == height,
            forall|x: int, y: int| 0 <= x < width && 0 <= y < height
                ==> g.cell(x, y)
                    == layout_cell(ObstaclePattern::Single, width as int, height as int, x, y),
    {
        Self::new_with_pattern(width, height, ObstaclePattern::Single)
    }

    /// Builds a grid of the given dimensions with the given layout: an
    /// empty interior, walls on the border, the layout's obstacle writes,
    /// and finally the exit opening(s) on the right-hand wall.
    #[verifier::loop_isolation(false)]
    pub fn new_with_pattern(width: usize, height: usize, pattern: ObstaclePattern) -> (g: Grid)
        requires
            pattern_dims_ok(pattern, width as int, height as int),
        ensures
            g.wf(),
            g.spec_width() == width,
            g.spec_height() == height,
            forall|x: int, y: int| 0 <= x < width && 0 <= y < height
                ==> g.cell(x, y)
                    == layout_cell(pattern, width as int, height as int, x, y),
    {
        proof {
            lemma_grid_size(width as int, height as int);
        }
        let total: usize = width * height;
        let mut cells: Vec<CellType> = Vec::new();
        for i in 0..total
            invariant
                cells@.len() == i,
                forall|j: int| 0 <= j < i
                    ==> cells@[j] == layout_cell(
                        pattern,
                        width as int,
                        height as int,
                        j % (width as int),
                        j / (width as int),
                    ),
        {
            let x: usize = i % width;
            let y: usize = i / width;
            assert(y < height) by (nonlinear_arith)
                requires
                    width > 0,
                    i < width * height,
                    y == i as int / width as int,
                    x == i as int % width as int;
            cells.push(cell_for_layout(pattern, width, height, x, y));
        }
        let g = Grid { width, height, cells };
        assert forall|x: int, y: int| 0 <= x < width && 0 <= y < height
            implies g.cell(x, y) == layout_cell(pattern, width as int, height as int, x, y) by {
            lemma_flat_index(width as int, height as int, x, y);
        }
        g
    }

    /// The cell kind at (x, y), or nothing when the indices fall outside
    /// the grid.
    pub fn get(&self, x: usize, y: usize) -> (r: Option<CellType>)
        requires
            self.wf(),
        ensures
            r == if self.in_bounds(x as int, y as int) {
                Some(self.cell(x as int, y as int))
            } else {
                None::<CellType>
            },
    {
        if x < self.width && y < self.height {
            proof {
                lemma_grid_size(self.spec_width(), self.spec_height());
                lemma_flat_index(self.spec_width(), self.spec_height(), x as int, y as int);
            }
            Some(self.cells[y * self.width + x])
        } else {
            None
        }
    }

    /// Writes a cell kind at (x, y); writes outside the grid are ignored.
    pub fn set(&mut self, x: usize, y: usize, cell_type: CellType)
        requires
            old(self).wf(),
        ensures
            final(self).wf(),
            final(self).spec_width() == old(self).spec_width(),
            final(self).spec_height() == old(self).spec_height(),
            old(self).in_bounds(x as int, y as int)
                ==> final(self).cell(x as int, y as int) == cell_type,
            forall|c: int, r: int| old(self).in_bounds(c, r) && !(c == x && r == y)
                ==> final(self).cell(c, r) == old(self).cell(c, r),
            !old(self).in_bounds(x as int, y as int) ==> *final(self) == *old(self),
    {
        if x < self.width && y < self.height {
            proof {
                lemma_grid_size(self.spec_width(), self.spec_height());
                lemma_flat_index(self.spec_width(), self.spec_height(), x as int, y as int);
            }
            self.cells.set(y * self.width + x, cell_type);
            assert forall|c: int, r: int| old(self).in_bounds(c, r) && !(c == x && r == y)
                implies self.cell(c, r) == old(self).cell(c, r) by {
                lemma_flat_index(self.spec_width(), self.spec_height(), c, r);
                lemma_flat_index(self.spec_width(), self.spec_height(), x as int, y as int);
            }
        }
    }

    /// True exactly when (x, y) is inside the grid and empty.
    pub fn is_empty(&self, x: usize, y: usize) -> (r: bool)
        requires
            self.wf(),
        ensures
            r == (self.in_bounds(x as int, y as int)
                && self.cell(x as int, y as int) == CellType::Empty),
    {
        matches!(self.get(x, y), Some(CellType::Empty))
    }

    /// True exactly when (x, y) is inside the grid and an exit.
    pub fn is_exit(&self, x: usize, y: usize) -> (r: bool)
        requires
            self.wf(),
        ensures
            r == self.spec_exit(x as int, y as int),
    {
        matches!(self.get(x, y), Some(CellType::Exit))
    }

    /// True exactly when (x, y) is inside the grid and walkable: empty or
    /// an exit.
    pub fn is_walkable(&self, x: usize, y: usize) -> (r: bool)
        requires
            self.wf(),
        ensures
            r == self.spec_walkable(x as int, y as int),
    {
        matches!(self.get(x, y), Some(CellType::Empty | CellType::Exit))
    }

    /// The grid's width.
    pub fn width(&self) -> (r: usize)
        ensures
            r == self.spec_width(),
    {
        self.width
    }

    /// The grid's height.
    pub fn height(&self) -> (r: usize)
        ensures
            r == self.spec_height(),
    {
        self.height
    }
}

/// Whether (x, y) lies in the square of half-width s centred at (cx, cy).
fn in_square(cx: usize, cy: usize, s: usize, x: usize, y: usize) -> (r: bool)
    requires
        cx + s <= usize::MAX,
        cy + s <= usize::MAX,
        x + s <= usize::MAX,
        y + s <= usize::MAX,
    ensures
        r == square_block(cx as int, cy as int, s as int, x as int, y as int),
{
    x + s >= cx && x <= cx + s && y + s >= cy && y <= cy + s
}

/// The executable twin of [`layout_exit`].
fn exit_at(pattern: ObstaclePattern, w: usize, h: usize, x: usize, y: usize) -> (r: bool)
    requires
        pattern_dims_ok(pattern, w as int, h as int),
        x < w,
        y < h,
    ensures
        r == layout_exit(pattern, w as int, h as int, x as int, y as int),
{
    if x != w - 1 {
        return false;
    }
    match pattern {
        ObstaclePattern::TwoExitsAdjacent => {
            let c: usize = h / 2;
            (y + 3 >= c && y + 2 <= c) || (c + 1 <= y && y <= c + 2)
        },
        ObstaclePattern::TwoExitsFar => {
            let q: usize = h / 4;
            (y + 1 >= q && y <= q) || (y + 1 >= 3 * q && y <= 3 * q)
        },
        _ => {
            let c: usize = h / 2;
            y + 1 >= c && y <= c + 1
        },
    }
}

/// Computes the final kind of cell (x, y) under the given layout; the
/// executable twin of [`layout_cell`].
fn cell_for_layout(pattern: ObstaclePattern, w: usize, h: usize, x: usize, y: usize) -> (c: CellType)
    requires
        pattern_dims_ok(pattern, w as int, h as int),
        x < w,
        y < h,
    ensures
        c == layout_cell(pattern, w as int, h as int, x as int, y as int),
{
    if exit_at(pattern, w, h, x, y) {
        return CellType::Exit;
    }
    let border: bool = x == 0 || y == 0 || x == w - 1 || y == h - 1;
    match pattern {
        ObstaclePattern::Empty
        | ObstaclePattern::TwoExitsAdjacent
        | ObstaclePattern::TwoExitsFar => {
            if border { CellType::Wall } else { CellType::Empty }
        },
        ObstaclePattern::Single => {
            if border || in_square(w * 5 / 6, h / 2, 1, x, y) {
                CellType::Wall
            } else {
                CellType::Empty
            }
        },
        ObstaclePattern::ExitObstacle => {
            let cy: usize = h / 2;
            let carve: bool = x + 8 >= w && x + 5 <= w
                && ((y + 6 <= cy && cy <= y + 8) || (cy + 6 <= y && y <= cy + 8));
            let block: bool = x + 11 >= w && x + 5 <= w && y + 5 >= cy && y <= cy + 5;
            if carve {
                CellType::Empty
            } else if border || block {
                CellType::Wall
            } else {
                CellType::Empty
            }
        },
        ObstaclePattern::MultiObstacles => {
            let hit: bool = in_square(w / 5, h / 4, 2, x, y)
                || in_square(w / 5, 3 * h / 4, 2, x, y)
                || in_square(2 * w / 5, h / 2, 3, x, y)
                || in_square(3 * w / 5, h / 3, 1, x, y)
                || in_square(3 * w / 5, 2 * h / 3, 2, x, y)
                || in_square(4 * w / 5, h / 2, 1, x, y);
            if border || hit { CellType::Wall } else { CellType::Empty }
        },
        ObstaclePattern::Rooms => {
            let mx: usize = w / 2;
            let my: usize = h / 2;
            let third: usize = h / 3;
            let two_third: usize = 2 * h / 3;
            if in_square(mx / 2, my / 2, 1, x, y) || in_square(mx / 2, my + my / 2, 1, x, y) {
                CellType::Wall
            } else if x == mx
                && ((y + 2 >= third && y <= third + 2)
                    || (y + 2 >= two_third && y <= two_third + 2)) {
                CellType::Empty
            } else if (x == mx && y < h - 1) || border {
                CellType::Wall
            } else {
                CellType::Empty
            }
        },
        ObstaclePattern::Labyrinth => {
            let horizontal: bool = 8 <= y && y < h - 8 && y % 8 == 0
                && 8 <= x && x < w - 8 && x % 12 != 6;
            let vertical: bool = 8 <= x && x < w - 8 && x % 12 == 0
                && 8 <= y && y < h - 8 && y % 8 != 4;
            if border || horizontal || vertical {
                CellType::Wall
            } else {
                CellType::Empty
            }
        },
    }
}

} // verus!
