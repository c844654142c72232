//! Per-cell spatial index over the compressed walls.
//!
//! Every lattice cell records its four world-space border segments and, for
//! each border, the wall covering it, if any (an uncovered border is an open
//! passage). A probe segment is resolved by walking from cell to cell
//! through the border it crosses, never re-crossing the border just
//! entered, until a covered border is hit or the segment ends. The cost is
//! proportional to the cells the segment crosses, not to the wall count.
use vstd::prelude::*;

use crate::geometry::{
    betw, contains_spec, intersection_spec, intersects_spec, line_in_range, point_in_range, Line,
    Point,
};
use crate::maze::grid_dims_ok;

verus! {

/// One of the four border directions of a cell.
#[derive(PartialEq, Eq, Structural, Clone, Copy, Debug)]
pub enum Direction {
    North,
    East,
    South,
    West,
}

/// The opposite direction: the border by which a neighbouring cell is
/// re-entered.
pub open spec fn rev_spec(d: Direction) -> Direction {
    match d {
        Direction::North => Direction::South,
        Direction::East => Direction::West,
        Direction::South => Direction::North,
        Direction::West => Direction::East,
    }
}

impl Direction {
    /// The opposite direction.
    pub fn rev(&self) -> (r: Direction)
        ensures
            r == rev_spec(*self),
    {
        match self {
            Direction::North => Direction::South,
            Direction::East => Direction::West,
            Direction::South => Direction::North,
            Direction::West => Direction::East,
        }
    }
}

/// World-space border segment of cell `(x, y)` in direction `d`, for cell
/// size `g`.
pub open spec fn cell_border(x: int, y: int, g: int, d: Direction) -> Line {
    let p1 = Point { x: (x * g) as i64, y: (y * g) as i64 };
    let p2 = Point { x: ((x + 1) * g) as i64, y: (y * g) as i64 };
    let p3 = Point { x: ((x + 1) * g) as i64, y: ((y + 1) * g) as i64 };
    let p4 = Point { x: (x * g) as i64, y: ((y + 1) * g) as i64 };
    match d {
        Direction::North => Line { a: p1, b: p2 },
        Direction::East => Line { a: p2, b: p3 },
        Direction::South => Line { a: p3, b: p4 },
        Direction::West => Line { a: p1, b: p4 },
    }
}

/// One lattice cell of the index: its position, its four border segments,
/// and the wall covering each border, if any.
#[derive(Clone, Copy, Debug)]
pub struct Cell {
    pub position: Point,
    pub border_n: Line,
    pub border_e: Line,
    pub border_s: Line,
    pub border_w: Line,
    pub wall_n: Option<Line>,
    pub wall_e: Option<Line>,
    pub wall_s: Option<Line>,
    pub wall_w: Option<Line>,
}

/// Wall slot of `c` in direction `d`.
pub open spec fn wall_of(c: Cell, d: Direction) -> Option<Line> {
    match d {
        Direction::North => c.wall_n,
        Direction::East => c.wall_e,
        Direction::South => c.wall_s,
        Direction::West => c.wall_w,
    }
}

/// A wall slot in range, whatever it holds.
pub open spec fn slot_in_range(slot: Option<Line>) -> bool {
    match slot {
        Some(l) => line_in_range(l),
        None => true,
    }
}

/// Well-formed cell for cell size `g` in a `w x h` grid: position in
/// bounds, the four borders exactly the cell's world-space border segments,
/// and everything within coordinate range.
pub open spec fn cell_wf(c: Cell, g: int, w: int, h: int) -> bool {
    &&& 0 <= c.position.x < w
    &&& 0 <= c.position.y < h
    &&& c.border_n == cell_border(c.position.x as int, c.position.y as int, g, Direction::North)
    &&& c.border_e == cell_border(c.position.x as int, c.position.y as int, g, Direction::East)
    &&& c.border_s == cell_border(c.position.x as int, c.position.y as int, g, Direction::South)
    &&& c.border_w == cell_border(c.position.x as int, c.position.y as int, g, Direction::West)
    &&& line_in_range(c.border_n)
    &&& line_in_range(c.border_e)
    &&& line_in_range(c.border_s)
    &&& line_in_range(c.border_w)
    &&& slot_in_range(c.wall_n)
    &&& slot_in_range(c.wall_e)
    &&& slot_in_range(c.wall_s)
    &&& slot_in_range(c.wall_w)
}

impl Cell {
    /// Build the cell at lattice position `(x, y)` with cell size
    /// `grid_size`, all four borders open.
    pub fn new(x: usize, y: usize, grid_size: usize) -> (c: Cell)
        requires
            x < 1000,
            y < 1000,
            1 <= grid_size <= 1000,
        ensures
            c.position.x == x,
            c.position.y == y,
            cell_wf(c, grid_size as int, x as int + 1, y as int + 1),
            c.wall_n is None,
            c.wall_e is None,
            c.wall_s is None,
            c.wall_w is None,
    {
        proof {
            assert((x + 1) * grid_size <= 1000 * 1000) by (nonlinear_arith)
                requires x < 1000 && grid_size <= 1000;
            assert((y + 1) * grid_size <= 1000 * 1000) by (nonlinear_arith)
                requires y < 1000 && grid_size <= 1000;
            assert(x * grid_size <= (x + 1) * grid_size) by (nonlinear_arith)
                requires grid_size >= 1;
            assert(y * grid_size <= (y + 1) * grid_size) by (nonlinear_arith)
                requires grid_size >= 1;
        }
        let p1 = Point::new((x * grid_size) as i64, (y * grid_size) as i64);
        let p2 = Point::new(((x + 1) * grid_size) as i64, (y * grid_size) as i64);
        let p3 = Point::new(((x + 1) * grid_size) as i64, ((y + 1) * grid_size) as i64);
        let p4 = Point::new((x * grid_size) as i64, ((y + 1) * grid_size) as i64);
        Cell {
            position: Point::new(x as i64, y as i64),
            border_n: Line::new(p1, p2),
            border_e: Line::new(p2, p3),
            border_s: Line::new(p3, p4),
            border_w: Line::new(p1, p4),
            wall_n: None,
            wall_e: None,
            wall_s: None,
            wall_w: None,
        }
    }
}

/// The spatial index: one record per lattice cell, indexed by
/// `x * height + y`.
#[derive(Clone, Debug)]
pub struct Grid {
    pub cells: Vec<Cell>,
    pub width: usize,
    pub height: usize,
    pub grid_size: usize,
}

/// Well-formed index: valid extents and one well-formed cell per lattice
/// position, stored at its canonical index.
pub open spec fn grid_wf(gr: Grid) -> bool {
    &&& grid_dims_ok(gr.width as int, gr.height as int)
    &&& 1 <= gr.grid_size <= 1000
    &&& gr.cells.len() == gr.width * gr.height
    &&& forall|i: int|
        0 <= i < gr.cells.len() ==> cell_wf(
            #[trigger] gr.cells[i],
            gr.grid_size as int,
            gr.width as int,
            gr.height as int,
        ) && gr.cells[i].position.x == i / (gr.height as int) && gr.cells[i].position.y == i % (
        gr.height as int)
}

/// Index of the cell that owns point `p`, by integer division of the world
/// coordinates: `Some` exactly when `p` lies inside the grid's rectangle.
pub open spec fn find_cell_spec(gr: Grid, p: Point) -> Option<int> {
    let g = gr.grid_size as int;
    if p.x < 0 || p.y < 0 {
        None
    } else {
        let cx = p.x as int / g;
        let cy = p.y as int / g;
        if cx < gr.width as int && cy < gr.height as int {
            Some(cx * gr.height as int + cy)
        } else {
            None
        }
    }
}

/// Index of the neighbouring cell in direction `d`, if it exists.
pub open spec fn neighbor_spec(gr: Grid, ci: int, d: Direction) -> Option<int> {
    let h = gr.height as int;
    let x = ci / h;
    let y = ci % h;
    match d {
        Direction::North => if y == 0 {
            None
        } else {
            Some(ci - 1)
        },
        Direction::South => if y == h - 1 {
            None
        } else {
            Some(ci + 1)
        },
        Direction::West => if x == 0 {
            None
        } else {
            Some(ci - h)
        },
        Direction::East => if x == gr.width as int - 1 {
            None
        } else {
            Some(ci + h)
        },
    }
}

/// `d` may be probed when the cell was entered from `from`: any direction
/// except the reverse of the entering one.
pub open spec fn dir_allowed(d: Direction, from: Option<Direction>) -> bool {
    match from {
        Some(f) => d != rev_spec(f),
        None => true,
    }
}

/// One step of the traversal at cell `ci` through border `d`: if the
/// border is covered, the exact intersection of the probe with the covering
/// wall; if open, continue into the neighbour (entering from `d`); off the
/// grid, no intersection.
pub open spec fn search_step_spec(
    gr: Grid,
    line: Line,
    ci: int,
    d: Direction,
    fuel: nat,
) -> Option<Point>
    decreases fuel, 1nat,
{
    match wall_of(gr.cells[ci], d) {
        Some(wl) => intersection_spec(line, wl),
        None => match neighbor_spec(gr, ci, d) {
            Some(n) => search_spec(gr, line, n, Some(d), fuel),
            None => None,
        },
    }
}

/// The traversal itself: probe the four borders in the fixed order North,
/// East, South, West, skip the border just entered, and take the first one
/// the segment crosses. `fuel` bounds the number of cell hops; a probe
/// segment can cross at most one border per cell it visits, so any fuel of
/// `width + height + 2` or more is never exhausted in practice.
pub open spec fn search_spec(
    gr: Grid,
    line: Line,
    ci: int,
    from: Option<Direction>,
    fuel: nat,
) -> Option<Point>
    decreases fuel, 0nat,
{
    if fuel == 0 {
        None
    } else {
        let c = gr.cells[ci];
        if dir_allowed(Direction::North, from) && intersects_spec(line, c.border_n) {
            search_step_spec(gr, line, ci, Direction::North, (fuel - 1) as nat)
        } else if dir_allowed(Direction::East, from) && intersects_spec(line, c.border_e) {
            search_step_spec(gr, line, ci, Direction::East, (fuel - 1) as nat)
        } else if dir_allowed(Direction::South, from) && intersects_spec(line, c.border_s) {
            search_step_spec(gr, line, ci, Direction::South, (fuel - 1) as nat)
        } else if dir_allowed(Direction::West, from) && intersects_spec(line, c.border_w) {
            search_step_spec(gr, line, ci, Direction::West, (fuel - 1) as nat)
        } else {
            None
        }
    }
}

/// The neighbour index returned by the traversal stays inside the grid.
proof fn lemma_neighbor_bounds(gr: Grid, ci: int, d: Direction)
    requires
        grid_wf(gr),
        0 <= ci < gr.cells.len(),
    ensures
        (match neighbor_spec(gr, ci, d) {
            Some(n) => 0 <= n < gr.cells.len(),
            None => true,
        }),
{
    let h = gr.height as int;
    let w = gr.width as int;
    vstd::arithmetic::div_mod::lemma_fundamental_div_mod(ci, h);
    vstd::arithmetic::div_mod::lemma_mod_bound(ci, h);
    vstd::arithmetic::div_mod::lemma_div_pos_is_pos(ci, h);
    let x = ci / h;
    let y = ci % h;
    assert(x < w) by (nonlinear_arith)
        requires
            h >= 1,
            ci < w * h,
            ci == h * x + y,
            0 <= y < h,
    ;
    assert(y != h - 1 ==> ci + 1 < w * h) by (nonlinear_arith)
        requires ci == h * x + y && 0 <= y < h && x < w && h >= 1;
    assert(x != w - 1 ==> ci + h < w * h) by (nonlinear_arith)
        requires ci == h * x + y && 0 <= y < h && 0 <= x < w && h >= 1;
    assert(x != 0 ==> ci - h >= 0) by (nonlinear_arith)
        requires ci == h * x + y && 0 <= y && h >= 1 && x >= 0;
}

/// Every hit the traversal reports is the exact intersection of the probe
/// with a wall held in some cell's wall slot: the index never invents a
/// point that is not on a recorded wall.
pub proof fn lemma_search_hit_is_wall_hit(
    gr: Grid,
    line: Line,
    ci: int,
    from: Option<Direction>,
    fuel: nat,
)
    requires
        grid_wf(gr),
        0 <= ci < gr.cells.len(),
    ensures
        (match search_spec(gr, line, ci, from, fuel) {
            Some(p) => exists|i: int, d: Direction|
                0 <= i < gr.cells.len() && (match #[trigger] wall_of(gr.cells[i], d) {
                    Some(wl) => intersection_spec(line, wl) == Some(p),
                    None => false,
                }),
            None => true,
        }),
    decreases fuel, 0nat,
{
    if fuel == 0 {
    } else {
        let c = gr.cells[ci];
        if dir_allowed(Direction::North, from) && intersects_spec(line, c.border_n) {
            lemma_search_step_hit(gr, line, ci, Direction::North, (fuel - 1) as nat);
        } else if dir_allowed(Direction::East, from) && intersects_spec(line, c.border_e) {
            lemma_search_step_hit(gr, line, ci, Direction::East, (fuel - 1) as nat);
        } else if dir_allowed(Direction::South, from) && intersects_spec(line, c.border_s) {
            lemma_search_step_hit(gr, line, ci, Direction::South, (fuel - 1) as nat);
        } else if dir_allowed(Direction::West, from) && intersects_spec(line, c.border_w) {
            lemma_search_step_hit(gr, line, ci, Direction::West, (fuel - 1) as nat);
        }
    }
}

/// One traversal step either returns the intersection with the crossed
/// border's wall, or continues; either way any hit comes from a wall slot.
proof fn lemma_search_step_hit(gr: Grid, line: Line, ci: int, d: Direction, fuel: nat)
    requires
        grid_wf(gr),
        0 <= ci < gr.cells.len(),
    ensures
        (match search_step_spec(gr, line, ci, d, fuel) {
            Some(p) => exists|i: int, dd: Direction|
                0 <= i < gr.cells.len() && (match #[trigger] wall_of(gr.cells[i], dd) {
                    Some(wl) => intersection_spec(line, wl) == Some(p),
                    None => false,
                }),
            None => true,
        }),
    decreases fuel, 1nat,
{
    match wall_of(gr.cells[ci], d) {
        Some(wl) => {
            match intersection_spec(line, wl) {
                Some(p) => {
                    assert(0 <= ci < gr.cells.len() && (match wall_of(gr.cells[ci], d) {
                        Some(w2) => intersection_spec(line, w2) == Some(p),
                        None => false,
                    }));
                },
                None => {},
            }
        },
        None => {
            match neighbor_spec(gr, ci, d) {
                Some(n) => {
                    lemma_neighbor_bounds(gr, ci, d);
                    lemma_search_hit_is_wall_hit(gr, line, n, Some(d), fuel);
                },
                None => {},
            }
        },
    }
}

/// First wall in `walls` that covers `border`, if any.
fn find_cover(walls: &Vec<Line>, border: &Line) -> (r: Option<Line>)
    ensures
        (match r {
            Some(l) => walls@.contains(l) && contains_spec(l, *border),
            None => forall|t: int|
                0 <= t < walls.len() ==> !contains_spec(#[trigger] walls@[t], *border),
        }),
{
    let mut t: usize = 0;
    while t < walls.len()
        invariant
            t <= walls.len(),
            forall|j: int| 0 <= j < t ==> !contains_spec(#[trigger] walls@[j], *border),
        decreases walls.len() - t,
    {
        if walls[t].contains(border) {
            return Some(walls[t]);
        }
        t = t + 1;
    }
    None
}

/// Each wall slot of `c` holds a wall of `walls` covering the matching
/// border, and is empty only when no wall covers that border.
pub open spec fn filled_ok(c: Cell, walls: Seq<Line>) -> bool {
    &&& slot_ok(c.wall_n, c.border_n, walls)
    &&& slot_ok(c.wall_e, c.border_e, walls)
    &&& slot_ok(c.wall_s, c.border_s, walls)
    &&& slot_ok(c.wall_w, c.border_w, walls)
}

/// One wall slot is faithful to `walls` for `border`.
pub open spec fn slot_ok(slot: Option<Line>, border: Line, walls: Seq<Line>) -> bool {
    match slot {
        Some(l) => walls.contains(l) && contains_spec(l, border),
        None => forall|t: int| 0 <= t < walls.len() ==> !contains_spec(#[trigger] walls[t], border),
    }
}

impl Grid {
    /// Build the empty index for a `width x height` grid of cells of size
    /// `grid_size`: every border open.
    pub fn new(grid_size: usize, width: usize, height: usize) -> (gr: Grid)
        requires
            grid_dims_ok(width as int, height as int),
            1 <= grid_size <= 1000,
        ensures
            grid_wf(gr),
            gr.width == width,
            gr.height == height,
            gr.grid_size == grid_size,
            forall|i: int|
                0 <= i < gr.cells.len() ==> (#[trigger] gr.cells[i]).wall_n is None
                    && gr.cells[i].wall_e is None && gr.cells[i].wall_s is None
                    && gr.cells[i].wall_w is None,
    {
        let mut cells: Vec<Cell> = Vec::new();
        let mut x: usize = 0;
        while x < width
            invariant
                x <= width,
                grid_dims_ok(width as int, height as int),
                1 <= grid_size <= 1000,
                cells.len() == x * height,
                forall|i: int|
                    0 <= i < cells.len() ==> cell_wf(
                        #[trigger] cells[i],
                        grid_size as int,
                        width as int,
                        height as int,
                    ) && cells[i].position.x == i / (height as int) && cells[i].position.y == i % (
                    height as int) && cells[i].wall_n is None && cells[i].wall_e is None
                        && cells[i].wall_s is None && cells[i].wall_w is None,
            decreases width - x,
        {
            let mut y: usize = 0;
            while y < height
                invariant
                    x < width,
                    y <= height,
                    grid_dims_ok(width as int, height as int),
                    1 <= grid_size <= 1000,
                    cells.len() == x * height + y,
                    forall|i: int|
                        0 <= i < cells.len() ==> cell_wf(
                            #[trigger] cells[i],
                            grid_size as int,
                            width as int,
                            height as int,
                        ) && cells[i].position.x == i / (height as int) && cells[i].position.y == i
                        % (height as int) && cells[i].wall_n is None && cells[i].wall_e is None
                            && cells[i].wall_s is None && cells[i].wall_w is None,
                decreases height - y,
            {
                proof {
                    assert(x * height + y < 1000 * 1000) by (nonlinear_arith)
                        requires x < 1000 && y < height <= 1000;
                }
                let c = Cell::new(x, y, grid_size);
                proof {
                    assert(cell_wf(c, grid_size as int, width as int, height as int));
                    vstd::arithmetic::div_mod::lemma_fundamental_div_mod_converse(
                        (x * height + y) as int,
                        height as int,
                        x as int,
                        y as int,
                    );
                }
                cells.push(c);
                y = y + 1;
            }
            x = x + 1;
            proof {
                assert((x - 1) * height + height == x * height) by (nonlinear_arith);
            }
        }
        Grid { cells, width, height, grid_size }
    }

    /// Record, for every cell and every border direction, the wall of
    /// `walls` covering that border, if any. Borders and positions are
    /// unchanged.
    pub fn fill(self, walls: &Vec<Line>) -> (gr: Grid)
        requires
            grid_wf(self),
            forall|t: int| 0 <= t < walls.len() ==> line_in_range(#[trigger] walls@[t]),
        ensures
            grid_wf(gr),
            gr.width == self.width,
            gr.height == self.height,
            gr.grid_size == self.grid_size,
            gr.cells.len() == self.cells.len(),
            forall|i: int|
                0 <= i < gr.cells.len() ==> (#[trigger] gr.cells[i]).position == self.cells[
                    i
                ].position && gr.cells[i].border_n == self.cells[i].border_n && gr.cells[i].border_e
                    == self.cells[i].border_e && gr.cells[i].border_s == self.cells[i].border_s
                    && gr.cells[i].border_w == self.cells[i].border_w,
            forall|i: int| 0 <= i < gr.cells.len() ==> filled_ok(#[trigger] gr.cells[i], walls@),
    {
        let mut gr = self;
        let n = gr.cells.len();
        let mut i: usize = 0;
        while i < n
            invariant
                i <= n,
                n == gr.cells.len(),
                gr.cells.len() == self.cells.len(),
                gr.width == self.width,
                gr.height == self.height,
                gr.grid_size == self.grid_size,
                grid_wf(self),
                forall|t: int| 0 <= t < walls.len() ==> line_in_range(#[trigger] walls@[t]),
                forall|j: int|
                    0 <= j < gr.cells.len() ==> (#[trigger] gr.cells[j]).position == self.cells[
                        j
                    ].position && gr.cells[j].border_n == self.cells[j].border_n && gr.cells[
                        j
                    ].border_e == self.cells[j].border_e && gr.cells[j].border_s == self.cells[
                        j
                    ].border_s && gr.cells[j].border_w == self.cells[j].border_w,
                forall|j: int|
                    0 <= j < gr.cells.len() ==> cell_wf(
                        #[trigger] gr.cells[j],
                        gr.grid_size as int,
                        gr.width as int,
                        gr.height as int,
                    ),
                forall|j: int| 0 <= j < i ==> filled_ok(#[trigger] gr.cells[j], walls@),
            decreases n - i,
        {
            let c = gr.cells[i];
            let filled = Cell {
                position: c.position,
                border_n: c.border_n,
                border_e: c.border_e,
                border_s: c.border_s,
                border_w: c.border_w,
                wall_n: find_cover(walls, &c.border_n),
                wall_e: find_cover(walls, &c.border_e),
                wall_s: find_cover(walls, &c.border_s),
                wall_w: find_cover(walls, &c.border_w),
            };
            proof {
                assert(filled_ok(filled, walls@));
                assert forall|t: int| 0 <= t < walls@.len() implies line_in_range(walls@[t]) by {}
                match filled.wall_n {
                    Some(l) => {
                        let t = choose|t: int| 0 <= t < walls@.len() && walls@[t] == l;
                        assert(line_in_range(l));
                    },
                    None => {},
                }
                match filled.wall_e {
                    Some(l) => {
                        let t = choose|t: int| 0 <= t < walls@.len() && walls@[t] == l;
                        assert(line_in_range(l));
                    },
                    None => {},
                }
                match filled.wall_s {
                    Some(l) => {
                        let t = choose|t: int| 0 <= t < walls@.len() && walls@[t] == l;
                        assert(line_in_range(l));
                    },
                    None => {},
                }
                match filled.wall_w {
                    Some(l) => {
                        let t = choose|t: int| 0 <= t < walls@.len() && walls@[t] == l;
                        assert(line_in_range(l));
                    },
                    None => {},
                }
            }
            gr.cells.set(i, filled);
            i = i + 1;
        }
        gr
    }

    /// Index of the cell that owns `p`: integer-divide the world
    /// coordinates by the cell size. `None` when `p` is outside the grid.
    pub fn find(&self, p: &Point) -> (r: Option<usize>)
        requires
            grid_wf(*self),
        ensures
            (match r {
                Some(i) => find_cell_spec(*self, *p) == Some(i as int) && i < self.cells.len(),
                None => find_cell_spec(*self, *p) is None,
            }),
    {
        if p.x < 0 || p.y < 0 {
            return None;
        }
        let g = self.grid_size as i64;
        let cx = p.x / g;
        let cy = p.y / g;
        proof {
            vstd::arithmetic::div_mod::lemma_div_pos_is_pos(p.x as int, g as int);
            vstd::arithmetic::div_mod::lemma_div_pos_is_pos(p.y as int, g as int);
        }
        if cx < self.width as i64 && cy < self.height as i64 {
            proof {
                assert(cx * self.height + cy < self.width * self.height) by (nonlinear_arith)
                    requires
                        0 <= cx < self.width,
                        0 <= cy < self.height,
                ;
                assert(self.width * self.height <= 1000 * 1000) by (nonlinear_arith)
                    requires self.width <= 1000 && self.height <= 1000;
            }
            let i = (cx as usize) * self.height + (cy as usize);
            Some(i)
        } else {
            None
        }
    }

    /// Index of the neighbouring cell in direction `direction`, if any.
    pub fn move_to(&self, ci: usize, direction: &Direction) -> (r: Option<usize>)
        requires
            grid_wf(*self),
            ci < self.cells.len(),
        ensures
            (match r {
                Some(n) => neighbor_spec(*self, ci as int, *direction) == Some(n as int) && n
                    < self.cells.len(),
                None => neighbor_spec(*self, ci as int, *direction) is None,
            }),
    {
        let h = self.height;
        let x = ci / h;
        let y = ci % h;
        proof {
            assert(self.cells.len() == self.width * self.height);
            vstd::arithmetic::div_mod::lemma_fundamental_div_mod(ci as int, h as int);
            vstd::arithmetic::div_mod::lemma_mod_bound(ci as int, h as int);
            assert(x as int == ci as int / h as int);
            assert(y as int == ci as int % h as int);
            assert(x < self.width) by (nonlinear_arith)
                requires
                    h >= 1,
                    (ci as int) < (self.width as int) * (h as int),
                    (ci as int) == (h as int) * (x as int) + (y as int),
                    0 <= y < h,
            ;
            assert((x as int + 1) * h as int == x as int * h as int + h as int)
                by (nonlinear_arith);
            assert(x as int * h as int + y as int == ci as int) by (nonlinear_arith)
                requires (ci as int) == (h as int) * (x as int) + (y as int);
            assert(x < self.width - 1 ==> ci + h < self.width * self.height) by (nonlinear_arith)
                requires
                    (ci as int) == (h as int) * (x as int) + (y as int),
                    0 <= y < h,
                    h == self.height,
            ;
            assert(x >= 1 ==> ci >= h) by (nonlinear_arith)
                requires
                    (ci as int) == (h as int) * (x as int) + (y as int),
                    0 <= y,
                    h >= 1,
            ;
        }
        match direction {
            Direction::North => if y == 0 {
                None
            } else {
                Some(ci - 1)
            },
            Direction::South => if y == h - 1 {
                None
            } else {
                Some(ci + 1)
            },
            Direction::West => if x == 0 {
                None
            } else {
                Some(ci - h)
            },
            Direction::East => if x == self.width - 1 {
                None
            } else {
                Some(ci + h)
            },
        }
    }

    /// Resolve the probe segment `line` starting inside cell `ci`, entered
    /// from `from`: walk cell to cell through the first crossed border per
    /// cell and return the exact intersection with the first covering wall
    /// met, or `None` when the probe ends or leaves the grid.
    pub fn find_intersection(&self, line: &Line, ci: usize, from: Option<Direction>) -> (r: Option<
        Point,
    >)
        requires
            grid_wf(*self),
            ci < self.cells.len(),
            line_in_range(*line),
        ensures
            r == search_spec(
                *self,
                *line,
                ci as int,
                from,
                (self.width + self.height + 2) as nat,
            ),
            (match r {
                Some(p) => point_in_range(p) && betw(p.x as int, line.a.x as int, line.b.x as int)
                    && betw(p.y as int, line.a.y as int, line.b.y as int),
                None => true,
            }),
    {
        let ghost fuel0 = (self.width + self.height + 2) as nat;
        let mut cur: usize = ci;
        let mut came: Option<Direction> = from;
        let mut fuel: usize = self.width + self.height + 2;
        loop
            invariant
                grid_wf(*self),
                line_in_range(*line),
                cur < self.cells.len(),
                fuel >= 1,
                fuel0 == (self.width + self.height + 2) as nat,
                search_spec(*self, *line, ci as int, from, fuel0) == search_spec(
                    *self,
                    *line,
                    cur as int,
                    came,
                    fuel as nat,
                ),
            decreases fuel,
        {
            let c = self.cells[cur];
            let ghost cspec = self.cells[cur as int];
            let mut hit_dir: Option<Direction> = None;
            if dir_ok(&Direction::North, &came) && line.intersects(&c.border_n) {
                hit_dir = Some(Direction::North);
            } else if dir_ok(&Direction::East, &came) && line.intersects(&c.border_e) {
                hit_dir = Some(Direction::East);
            } else if dir_ok(&Direction::South, &came) && line.intersects(&c.border_s) {
                hit_dir = Some(Direction::South);
            } else if dir_ok(&Direction::West, &came) && line.intersects(&c.border_w) {
                hit_dir = Some(Direction::West);
            }
            match hit_dir {
                None => {
                    proof {
                        assert(search_spec(*self, *line, cur as int, came, fuel as nat)
                            is None);
                    }
                    return None;
                },
                Some(d) => {
                    proof {
                        assert(search_spec(*self, *line, cur as int, came, fuel as nat)
                            == search_step_spec(*self, *line, cur as int, d, (fuel - 1) as nat));
                    }
                    let wall_slot = match d {
                        Direction::North => c.wall_n,
                        Direction::East => c.wall_e,
                        Direction::South => c.wall_s,
                        Direction::West => c.wall_w,
                    };
                    proof {
                        assert(wall_slot == wall_of(cspec, d));
                    }
                    match wall_slot {
                        Some(wl) => {
                            proof {
                                assert(search_step_spec(
                                    *self,
                                    *line,
                                    cur as int,
                                    d,
                                    (fuel - 1) as nat,
                                ) == intersection_spec(*line, wl));
                            }
                            return line.intersection(&wl);
                        },
                        None => {
                            match self.move_to(cur, &d) {
                                Some(n) => {
                                    proof {
                                        assert(neighbor_spec(*self, cur as int, d) == Some(
                                            n as int,
                                        ));
                                        assert(search_step_spec(
                                            *self,
                                            *line,
                                            cur as int,
                                            d,
                                            (fuel - 1) as nat,
                                        ) == search_spec(
                                            *self,
                                            *line,
                                            n as int,
                                            Some(d),
                                            (fuel - 1) as nat,
                                        ));
                                    }
                                    if fuel == 1 {
                                        proof {
                                            assert(search_spec(
                                                *self,
                                                *line,
                                                n as int,
                                                Some(d),
                                                0nat,
                                            ) is None);
                                        }
                                        return None;
                                    }
                                    cur = n;
                                    came = Some(d);
                                    fuel = fuel - 1;
                                },
                                None => {
                                    proof {
                                        assert(neighbor_spec(*self, cur as int, d) is None);
                                        assert(search_step_spec(
                                            *self,
                                            *line,
                                            cur as int,
                                            d,
                                            (fuel - 1) as nat,
                                        ) is None);
                                    }
                                    return None;
                                },
                            }
                        },
                    }
                },
            }
        }
    }
}

/// Decide whether direction `d` may be probed given the entering direction.
fn dir_ok(d: &Direction, from: &Option<Direction>) -> (r: bool)
    ensures
        r == dir_allowed(*d, *from),
{
    match from {
        Some(f) => !(*d == f.rev()),
        None => true,
    }
}

} // verus!
