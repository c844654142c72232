//! Randomized spanning-tree maze construction on a rectangular lattice.
//!
//! The grid of `width x height` unit cells is the dual graph: every cell
//! starts as its own area, and carving repeatedly removes a uniformly random
//! inner edge between two distinct areas and merges them, until one area
//! remains. Dropout then removes a fixed fraction of the surviving inner
//! edges, reintroducing loops. Outer boundary edges are never candidates and
//! always survive.
use vstd::prelude::*;

use crate::geometry::{Line, Point, lemma_frac_scale_bounds};
use crate::rng::random_below;

verus! {

/// A lattice wall segment between two cells (or between a cell and the
/// outside), labelled with the area ids of the touching cells. `right` is
/// `None` exactly for outer boundary edges; `alive` is cleared when the edge
/// is carved away or dropped out.
#[derive(Clone, Copy, Debug)]
pub struct Edge {
    pub seg: Line,
    pub left: usize,
    pub right: Option<usize>,
    pub alive: bool,
}

/// Area id of cell `(x, y)`, following column-major cell enumeration.
pub open spec fn cell_id(x: int, y: int, height: int) -> int {
    x * height + y
}

/// The unit lattice segment from `(x, y)` to `(x + 1, y)`.
pub open spec fn h_seg(x: int, y: int) -> Line {
    Line { a: Point { x: x as i64, y: y as i64 }, b: Point { x: (x + 1) as i64, y: y as i64 } }
}

/// The unit lattice segment from `(x, y)` to `(x, y + 1)`.
pub open spec fn v_seg(x: int, y: int) -> Line {
    Line { a: Point { x: x as i64, y: y as i64 }, b: Point { x: x as i64, y: (y + 1) as i64 } }
}

/// `l` is a unit lattice segment of the `width x height` grid.
pub open spec fn is_grid_edge(l: Line, width: int, height: int) -> bool {
    (l.b.x == l.a.x + 1 && l.b.y == l.a.y && 0 <= l.a.x < width && 0 <= l.a.y <= height)
        || (l.b.x == l.a.x && l.b.y == l.a.y + 1 && 0 <= l.a.x <= width && 0 <= l.a.y < height)
}

/// `l` is a grid edge on the outer boundary of the lattice.
pub open spec fn is_boundary_edge(l: Line, width: int, height: int) -> bool {
    is_grid_edge(l, width, height)
        && (if l.b.x == l.a.x + 1 {
            l.a.y == 0 || l.a.y == height
        } else {
            l.a.x == 0 || l.a.x == width
        })
}

/// Well-formed edge record: a grid edge whose labels are valid area ids and
/// whose `right` is present exactly when the edge is inner (not boundary).
pub open spec fn edge_wf(e: Edge, width: int, height: int) -> bool {
    is_grid_edge(e.seg, width, height) && 0 <= e.left < width * height && (match e.right {
        Some(r) => 0 <= r < width * height && !is_boundary_edge(e.seg, width, height),
        None => is_boundary_edge(e.seg, width, height),
    })
}

/// Number of edges in `s` that are alive and inner.
pub open spec fn alive_inner_count(s: Seq<Edge>) -> int
    decreases s.len(),
{
    if s.len() == 0 {
        0
    } else {
        alive_inner_count(s.drop_last()) + if s.last().alive && s.last().right is Some {
            1int
        } else {
            0int
        }
    }
}

/// The cell on the first-labelled side of an inner edge, by segment
/// geometry: above a horizontal segment, left of a vertical one.
pub open spec fn edge_left_cell(seg: Line, height: int) -> int {
    if seg.b.x == seg.a.x + 1 {
        cell_id(seg.a.x as int, seg.a.y as int - 1, height)
    } else {
        cell_id(seg.a.x as int - 1, seg.a.y as int, height)
    }
}

/// The cell on the second-labelled side of an inner edge: below a
/// horizontal segment, right of a vertical one.
pub open spec fn edge_right_cell(seg: Line, height: int) -> int {
    cell_id(seg.a.x as int, seg.a.y as int, height)
}

/// The labels of an inner edge record are the labels of its two cells
/// under the cell labelling `area_of`.
pub open spec fn edge_links(e: Edge, area_of: Seq<int>, height: int) -> bool {
    match e.right {
        Some(r) => {
            &&& 0 <= edge_left_cell(e.seg, height) < area_of.len()
            &&& 0 <= edge_right_cell(e.seg, height) < area_of.len()
            &&& e.left as int == area_of[edge_left_cell(e.seg, height)]
            &&& r as int == area_of[edge_right_cell(e.seg, height)]
        },
        None => true,
    }
}

/// Every inner edge of `s` is labelled by `area_of`, and a carved (dead)
/// edge lies between two cells of the same area.
pub open spec fn edges_labelled(s: Seq<Edge>, area_of: Seq<int>, height: int) -> bool {
    forall|i: int|
        0 <= i < s.len() ==> edge_links(#[trigger] s[i], area_of, height) && (!s[i].alive
            ==> (match s[i].right {
            Some(_) => area_of[edge_left_cell(s[i].seg, height)] == area_of[edge_right_cell(
                s[i].seg,
                height,
            )],
            None => true,
        }))
}

/// Every inner segment of the grid appears in `s`.
pub open spec fn inner_present(s: Seq<Edge>, width: int, height: int) -> bool {
    (forall|x: int, y: int|
        0 <= x < width && 1 <= y <= height - 1 ==> exists|i: int|
            0 <= i < s.len() && (#[trigger] s[i]).seg == #[trigger] h_seg(x, y)) && (forall|
        x: int,
        y: int,
    |
        1 <= x <= width - 1 && 0 <= y < height ==> exists|i: int|
            0 <= i < s.len() && (#[trigger] s[i]).seg == #[trigger] v_seg(x, y))
}

/// No two edge records share a segment: the edge set is duplicate-free.
pub open spec fn seg_distinct(s: Seq<Edge>) -> bool {
    forall|i: int, j: int|
        0 <= i < j < s.len() ==> (#[trigger] s[i]).seg != (#[trigger] s[j]).seg
}

/// The identity labelling: every cell its own area.
pub open spec fn identity_labels(n: int) -> Seq<int> {
    Seq::new(n as nat, |c: int| c)
}

/// Every boundary segment of the grid appears in `s` as an alive edge with
/// no `right` label.
pub open spec fn boundary_present(s: Seq<Edge>, width: int, height: int) -> bool {
    forall|l: Line|
        is_boundary_edge(l, width, height) ==> exists|i: int|
            0 <= i < s.len() && (#[trigger] s[i]).seg == l && s[i].right is None && s[i].alive
}

/// Grid extents accepted by the generator: small enough that all id and
/// coordinate arithmetic stays far from overflow.
pub open spec fn grid_dims_ok(width: int, height: int) -> bool {
    1 <= width <= 1000 && 1 <= height <= 1000
}

/// Every edge of `s` is well formed.
pub open spec fn edges_ok(s: Seq<Edge>, width: int, height: int) -> bool {
    forall|i: int| 0 <= i < s.len() ==> edge_wf(#[trigger] s[i], width, height)
}

/// `s1` is `s0` after some carving: same segments in the same order, inner
/// edges stay inner, walls are only ever removed (never added back), and
/// boundary edges are untouched.
pub open spec fn edges_preserved(s0: Seq<Edge>, s1: Seq<Edge>) -> bool {
    s1.len() == s0.len() && forall|i: int|
        0 <= i < s0.len() ==> ((#[trigger] s1[i]).seg == s0[i].seg
            && (s1[i].right is Some) == (s0[i].right is Some)
            && (s1[i].alive ==> s0[i].alive)
            && (s0[i].right is None ==> s1[i].alive == s0[i].alive))
}

/// Contribution of one edge to `alive_inner_count`.
pub open spec fn inner_contrib(e: Edge) -> int {
    if e.alive && e.right is Some {
        1
    } else {
        0
    }
}

/// Replacing one element shifts the two counts by the difference of the
/// element contributions.
proof fn lemma_count_update(s: Seq<Edge>, i: int, e: Edge)
    requires
        0 <= i < s.len(),
    ensures
        alive_inner_count(s.update(i, e)) == alive_inner_count(s) - inner_contrib(s[i])
            + inner_contrib(e),
    decreases s.len(),
{
    let t = s.update(i, e);
    if i == s.len() - 1 {
        assert(t.drop_last() =~= s.drop_last());
        assert(t.last() == e);
    } else {
        assert(t.drop_last() =~= s.drop_last().update(i, e));
        lemma_count_update(s.drop_last(), i, e);
        assert(t.last() == s.last());
    }
}

/// The alive-inner count never exceeds the sequence length.
proof fn lemma_count_le_len(s: Seq<Edge>)
    ensures
        0 <= alive_inner_count(s) <= s.len(),
    decreases s.len(),
{
    if s.len() > 0 {
        lemma_count_le_len(s.drop_last());
    }
}

/// Boundary presence survives carving.
proof fn lemma_boundary_preserved(s0: Seq<Edge>, s1: Seq<Edge>, w: int, h: int)
    requires
        boundary_present(s0, w, h),
        edges_preserved(s0, s1),
    ensures
        boundary_present(s1, w, h),
{
    assert forall|l: Line| is_boundary_edge(l, w, h) implies exists|i: int|
        0 <= i < s1.len() && (#[trigger] s1[i]).seg == l && s1[i].right is None
            && s1[i].alive by {
        let i = choose|i: int|
            0 <= i < s0.len() && (#[trigger] s0[i]).seg == l && s0[i].right is None && s0[i].alive;
        assert(0 <= i < s1.len() && s1[i].seg == l && s1[i].right is None && s1[i].alive);
    }
}



/// Two lattice cells share a border.
pub open spec fn adjacent_cells(x1: int, y1: int, x2: int, y2: int) -> bool {
    (x1 == x2 && (y2 == y1 + 1 || y1 == y2 + 1)) || (y1 == y2 && (x2 == x1 + 1 || x1 == x2 + 1))
}

/// The lattice segment separating two adjacent cells.
pub open spec fn sep_of(x1: int, y1: int, x2: int, y2: int) -> Line {
    if x2 == x1 + 1 {
        v_seg(x2, y1)
    } else if x1 == x2 + 1 {
        v_seg(x1, y1)
    } else if y2 == y1 + 1 {
        h_seg(x1, y2)
    } else {
        h_seg(x1, y1)
    }
}

/// The border between two adjacent cells is open: no surviving wall
/// record lies on it.
pub open spec fn passage_open(s: Seq<Edge>, x1: int, y1: int, x2: int, y2: int) -> bool {
    forall|i: int|
        0 <= i < s.len() && (#[trigger] s[i]).seg == sep_of(x1, y1, x2, y2) ==> !s[i].alive
}

/// `p` is a walk through open passages between in-bounds cells.
pub open spec fn path_ok(s: Seq<Edge>, p: Seq<(int, int)>, width: int, height: int) -> bool {
    p.len() >= 1 && (forall|t: int|
        0 <= t < p.len() ==> 0 <= (#[trigger] p[t]).0 < width && 0 <= p[t].1 < height) && (forall|
        t: int,
    |
        0 <= t < p.len() - 1 ==> adjacent_cells(
            (#[trigger] p[t]).0,
            p[t].1,
            p[t + 1].0,
            p[t + 1].1,
        ) && passage_open(s, p[t].0, p[t].1, p[t + 1].0, p[t + 1].1))
}

/// Two cells are joined by a walk through open passages: the maze,
/// read as the dual graph of open borders, connects them.
pub open spec fn cells_connected(
    s: Seq<Edge>,
    width: int,
    height: int,
    x1: int,
    y1: int,
    x2: int,
    y2: int,
) -> bool {
    exists|p: Seq<(int, int)>|
        #[trigger] path_ok(s, p, width, height) && p.first() == (x1, y1) && p.last() == (x2, y2)
}

/// Every pair of in-bounds cells is connected through open passages: the
/// maze, read as the dual graph of open borders, is connected.
pub open spec fn all_cells_connected(s: Seq<Edge>, width: int, height: int) -> bool {
    forall|x1: int, y1: int, x2: int, y2: int|
        0 <= x1 < width && 0 <= y1 < height && 0 <= x2 < width && 0 <= y2 < height
            ==> cells_connected(s, width, height, x1, y1, x2, y2)
}

/// A cell is connected to itself.
proof fn lemma_self_connected(s: Seq<Edge>, width: int, height: int, x: int, y: int)
    requires
        0 <= x < width,
        0 <= y < height,
    ensures
        cells_connected(s, width, height, x, y, x, y),
{
    let p: Seq<(int, int)> = seq![(x, y)];
    assert(path_ok(s, p, width, height));
    assert(p.first() == (x, y) && p.last() == (x, y));
}

/// One open border gives a two-cell walk.
proof fn lemma_step_connected(
    s: Seq<Edge>,
    width: int,
    height: int,
    x1: int,
    y1: int,
    x2: int,
    y2: int,
)
    requires
        adjacent_cells(x1, y1, x2, y2),
        0 <= x1 < width,
        0 <= y1 < height,
        0 <= x2 < width,
        0 <= y2 < height,
        passage_open(s, x1, y1, x2, y2),
    ensures
        cells_connected(s, width, height, x1, y1, x2, y2),
{
    let p: Seq<(int, int)> = seq![(x1, y1), (x2, y2)];
    assert(path_ok(s, p, width, height));
    assert(p.first() == (x1, y1) && p.last() == (x2, y2));
}

/// Opening further passages never disconnects anything: connectivity
/// carries from a wall set to any wall set with the same segments and no
/// more survivors.
proof fn lemma_connected_monotone(
    s1: Seq<Edge>,
    s2: Seq<Edge>,
    width: int,
    height: int,
    x1: int,
    y1: int,
    x2: int,
    y2: int,
)
    requires
        cells_connected(s1, width, height, x1, y1, x2, y2),
        s2.len() == s1.len(),
        forall|i: int|
            0 <= i < s1.len() ==> (#[trigger] s2[i]).seg == s1[i].seg && (s2[i].alive
                ==> s1[i].alive),
    ensures
        cells_connected(s2, width, height, x1, y1, x2, y2),
{
    let p = choose|p: Seq<(int, int)>|
        #[trigger] path_ok(s1, p, width, height) && p.first() == (x1, y1) && p.last() == (
        x2,
        y2,
        );
    assert forall|t: int| 0 <= t < p.len() - 1 implies adjacent_cells(
        (#[trigger] p[t]).0,
        p[t].1,
        p[t + 1].0,
        p[t + 1].1,
    ) && passage_open(s2, p[t].0, p[t].1, p[t + 1].0, p[t + 1].1) by {
        assert(passage_open(s1, p[t].0, p[t].1, p[t + 1].0, p[t + 1].1));
        assert forall|i: int|
            0 <= i < s2.len() && (#[trigger] s2[i]).seg == sep_of(
                p[t].0,
                p[t].1,
                p[t + 1].0,
                p[t + 1].1,
            ) implies !s2[i].alive by {
            assert(s1[i].seg == s2[i].seg);
        }
    }
    assert(path_ok(s2, p, width, height));
}

/// Walks concatenate: connectivity is transitive.
proof fn lemma_connected_trans(
    s: Seq<Edge>,
    width: int,
    height: int,
    ax: int,
    ay: int,
    bx: int,
    by: int,
    cx: int,
    cy: int,
)
    requires
        cells_connected(s, width, height, ax, ay, bx, by),
        cells_connected(s, width, height, bx, by, cx, cy),
    ensures
        cells_connected(s, width, height, ax, ay, cx, cy),
{
    let p1 = choose|p: Seq<(int, int)>|
        #[trigger] path_ok(s, p, width, height) && p.first() == (ax, ay) && p.last() == (bx, by);
    let p2 = choose|p: Seq<(int, int)>|
        #[trigger] path_ok(s, p, width, height) && p.first() == (bx, by) && p.last() == (cx, cy);
    let joined = p1 + p2.drop_first();
    assert(joined.len() == p1.len() + p2.len() - 1);
    assert forall|t: int|
        0 <= t < joined.len() implies 0 <= (#[trigger] joined[t]).0 < width && 0 <= joined[t].1
        < height by {
        if t < p1.len() {
            assert(joined[t] == p1[t]);
        } else {
            assert(joined[t] == p2[t - p1.len() + 1]);
        }
    }
    assert forall|t: int| 0 <= t < joined.len() - 1 implies adjacent_cells(
        (#[trigger] joined[t]).0,
        joined[t].1,
        joined[t + 1].0,
        joined[t + 1].1,
    ) && passage_open(s, joined[t].0, joined[t].1, joined[t + 1].0, joined[t + 1].1) by {
        if t < p1.len() - 1 {
            assert(joined[t] == p1[t]);
            assert(joined[t + 1] == p1[t + 1]);
        } else if t == p1.len() - 1 {
            assert(joined[t] == p1[t]);
            assert(p1[t] == p2[0]);
            assert(joined[t + 1] == p2[1]);
        } else {
            assert(joined[t] == p2[t - p1.len() + 1]);
            assert(joined[t + 1] == p2[t - p1.len() + 2]);
        }
    }
    assert(path_ok(s, joined, width, height));
    assert(joined.first() == (ax, ay));
    assert(joined.last() == (cx, cy)) by {
        if p2.len() == 1 {
            assert(joined =~= p1);
        } else {
            assert(joined.last() == p2[p2.len() - 1]);
        }
    }
}

/// Cell ids are injective on the lattice.
proof fn lemma_cell_id_inj(x1: int, y1: int, x2: int, y2: int, height: int)
    requires
        1 <= height,
        0 <= y1 < height,
        0 <= y2 < height,
        cell_id(x1, y1, height) == cell_id(x2, y2, height),
    ensures
        x1 == x2 && y1 == y2,
{
    assert(x1 == x2 && y1 == y2) by (nonlinear_arith)
        requires
            1 <= height,
            0 <= y1 < height,
            0 <= y2 < height,
            x1 * height + y1 == x2 * height + y2,
    ;
}


/// The border between two adjacent cells is open in a wall set: the
/// separating segment is not among the walls.
pub open spec fn walls_passage_open(walls: Seq<Line>, x1: int, y1: int, x2: int, y2: int) -> bool {
    !walls.contains(sep_of(x1, y1, x2, y2))
}

/// `p` is a walk through wall-free borders between in-bounds cells.
pub open spec fn walls_path_ok(walls: Seq<Line>, p: Seq<(int, int)>, width: int, height: int) -> bool {
    p.len() >= 1 && (forall|t: int|
        0 <= t < p.len() ==> 0 <= (#[trigger] p[t]).0 < width && 0 <= p[t].1 < height) && (forall|
        t: int,
    |
        0 <= t < p.len() - 1 ==> adjacent_cells(
            (#[trigger] p[t]).0,
            p[t].1,
            p[t + 1].0,
            p[t + 1].1,
        ) && walls_passage_open(walls, p[t].0, p[t].1, p[t + 1].0, p[t + 1].1))
}

/// Two cells are joined by a walk avoiding the walls.
pub open spec fn walls_connected(
    walls: Seq<Line>,
    width: int,
    height: int,
    x1: int,
    y1: int,
    x2: int,
    y2: int,
) -> bool {
    exists|p: Seq<(int, int)>|
        #[trigger] walls_path_ok(walls, p, width, height) && p.first() == (x1, y1) && p.last() == (
        x2,
        y2,
        )
}

/// The maze is connected: every cell can be reached from every cell
/// through borders that carry no wall.
pub open spec fn maze_connected(walls: Seq<Line>, width: int, height: int) -> bool {
    forall|x1: int, y1: int, x2: int, y2: int|
        0 <= x1 < width && 0 <= y1 < height && 0 <= x2 < width && 0 <= y2 < height
            ==> walls_connected(walls, width, height, x1, y1, x2, y2)
}

/// Every listed wall is the segment of some surviving edge record.
pub open spec fn walls_sound(s: Seq<Edge>, walls: Seq<Line>) -> bool {
    forall|t: int|
        0 <= t < walls.len() ==> exists|i: int|
            0 <= i < s.len() && (#[trigger] s[i]).alive && s[i].seg == #[trigger] walls[t]
}

/// Connectivity is monotone in openness: it carries to any state with the
/// same segments and no more survivors.
proof fn lemma_all_connected_monotone(s1: Seq<Edge>, s2: Seq<Edge>, width: int, height: int)
    requires
        all_cells_connected(s1, width, height),
        s2.len() == s1.len(),
        forall|i: int|
            0 <= i < s1.len() ==> (#[trigger] s2[i]).seg == s1[i].seg && (s2[i].alive
                ==> s1[i].alive),
    ensures
        all_cells_connected(s2, width, height),
{
    assert forall|x1: int, y1: int, x2: int, y2: int|
        0 <= x1 < width && 0 <= y1 < height && 0 <= x2 < width && 0 <= y2 < height
            implies cells_connected(s2, width, height, x1, y1, x2, y2) by {
        lemma_connected_monotone(s1, s2, width, height, x1, y1, x2, y2);
    }
}

/// A connected edge set yields a connected wall list, as long as every
/// listed wall is the segment of some surviving edge.
proof fn lemma_edges_to_walls_connected(s: Seq<Edge>, walls: Seq<Line>, width: int, height: int)
    requires
        all_cells_connected(s, width, height),
        walls_sound(s, walls),
    ensures
        maze_connected(walls, width, height),

{
    assert forall|x1: int, y1: int, x2: int, y2: int|
        0 <= x1 < width && 0 <= y1 < height && 0 <= x2 < width && 0 <= y2 < height
            implies walls_connected(walls, width, height, x1, y1, x2, y2) by {
        assert(cells_connected(s, width, height, x1, y1, x2, y2));
        let p = choose|p: Seq<(int, int)>|
            #[trigger] path_ok(s, p, width, height) && p.first() == (x1, y1) && p.last() == (
            x2,
            y2,
            );
        assert forall|t: int| 0 <= t < p.len() - 1 implies adjacent_cells(
            (#[trigger] p[t]).0,
            p[t].1,
            p[t + 1].0,
            p[t + 1].1,
        ) && walls_passage_open(walls, p[t].0, p[t].1, p[t + 1].0, p[t + 1].1) by {
            assert(passage_open(s, p[t].0, p[t].1, p[t + 1].0, p[t + 1].1));
            let sep = sep_of(p[t].0, p[t].1, p[t + 1].0, p[t + 1].1);
            if walls.contains(sep) {
                let tw = choose|tw: int| 0 <= tw < walls.len() && walls[tw] == sep;
                let i = choose|i: int|
                    0 <= i < s.len() && (#[trigger] s[i]).alive && s[i].seg == walls[tw];
                assert(false);
            }
        }
        assert(walls_path_ok(walls, p, width, height));
    }
}

/// An edge that carving may remove right now: alive, inner, and between
/// two distinct areas.
pub open spec fn eligible(e: Edge) -> bool {
    e.alive && (match e.right {
        Some(rv) => e.left != rv,
        None => false,
    })
}

/// Somewhere on the grid two neighbouring cells carry different labels.
pub open spec fn has_diff_adjacent(area_of: Seq<int>, width: int, height: int) -> bool {
    (exists|x: int, y: int|
        0 <= x < width && 0 <= y < height - 1 && area_of[#[trigger] cell_id(x, y, height)]
            != area_of[cell_id(x, y + 1, height)]) || (exists|x: int, y: int|
        0 <= x < width - 1 && 0 <= y < height && area_of[#[trigger] cell_id(x, y, height)]
            != area_of[cell_id(x + 1, y, height)])
}

/// Decompose a cell index into its lattice coordinates.
proof fn lemma_cell_decompose(c: int, width: int, height: int)
    requires
        0 <= c < width * height,
        1 <= width,
        1 <= height,
    ensures
        0 <= c / height < width,
        0 <= c % height < height,
        cell_id(c / height, c % height, height) == c,
{
    vstd::arithmetic::div_mod::lemma_fundamental_div_mod(c, height);
    vstd::arithmetic::div_mod::lemma_mod_bound(c, height);
    vstd::arithmetic::div_mod::lemma_div_pos_is_pos(c, height);
    assert(c / height < width) by (nonlinear_arith)
        requires
            height >= 1,
            c < width * height,
            c == height * (c / height) + c % height,
            0 <= c % height < height,
    ;
    assert(cell_id(c / height, c % height, height) == c) by (nonlinear_arith)
        requires c == height * (c / height) + c % height;
}

/// On a connected lattice, two cells with different labels force some
/// adjacent pair with different labels: walking from one to the other, the
/// label must change across some step.
proof fn lemma_grid_label_path(
    area_of: Seq<int>,
    width: int,
    height: int,
    x1: int,
    y1: int,
    x2: int,
    y2: int,
)
    requires
        1 <= width,
        1 <= height,
        area_of.len() == width * height,
        0 <= x1 < width,
        0 <= y1 < height,
        0 <= x2 < width,
        0 <= y2 < height,
        area_of[cell_id(x1, y1, height)] != area_of[cell_id(x2, y2, height)],
    ensures
        has_diff_adjacent(area_of, width, height),
    decreases
            (if x1 <= x2 {
                x2 - x1
            } else {
                x1 - x2
            }) + (if y1 <= y2 {
                y2 - y1
            } else {
                y1 - y2
            }),
{
    if x1 < x2 {
        if area_of[cell_id(x1, y1, height)] != area_of[cell_id(x1 + 1, y1, height)] {
            assert(0 <= x1 < width - 1 && 0 <= y1 < height && area_of[cell_id(x1, y1, height)]
                != area_of[cell_id(x1 + 1, y1, height)]);
        } else {
            lemma_grid_label_path(area_of, width, height, x1 + 1, y1, x2, y2);
        }
    } else if x1 > x2 {
        if area_of[cell_id(x1 - 1, y1, height)] != area_of[cell_id(x1, y1, height)] {
            assert(0 <= x1 - 1 < width - 1 && 0 <= y1 < height && area_of[cell_id(
                x1 - 1,
                y1,
                height,
            )] != area_of[cell_id(x1, y1, height)]);
        } else {
            lemma_grid_label_path(area_of, width, height, x1 - 1, y1, x2, y2);
        }
    } else if y1 < y2 {
        if area_of[cell_id(x1, y1, height)] != area_of[cell_id(x1, y1 + 1, height)] {
            assert(0 <= x1 < width && 0 <= y1 < height - 1 && area_of[cell_id(x1, y1, height)]
                != area_of[cell_id(x1, y1 + 1, height)]);
        } else {
            lemma_grid_label_path(area_of, width, height, x1, y1 + 1, x2, y2);
        }
    } else if y1 > y2 {
        if area_of[cell_id(x1, y1 - 1, height)] != area_of[cell_id(x1, y1, height)] {
            assert(0 <= x1 < width && 0 <= y1 - 1 < height - 1 && area_of[cell_id(
                x1,
                y1 - 1,
                height,
            )] != area_of[cell_id(x1, y1, height)]);
        } else {
            lemma_grid_label_path(area_of, width, height, x1, y1 - 1, x2, y2);
        }
    }
}

/// The identity labelling uses exactly `n` distinct labels.
proof fn lemma_identity_card(n: int)
    requires
        0 <= n,
    ensures
        identity_labels(n).to_set().finite(),
        identity_labels(n).to_set().len() == n,
{
    let s = identity_labels(n);
    assert forall|v: int|
        s.to_set().contains(v) == vstd::set_lib::set_int_range(0, n).contains(v) by {
        if 0 <= v < n {
            assert(s[v] == v);
            assert(s.contains(v));
        }
        if s.contains(v) {
            let i = choose|i: int| 0 <= i < s.len() && s[i] == v;
            assert(0 <= v < n);
        }
    }
    assert(s.to_set() =~= vstd::set_lib::set_int_range(0, n));
    vstd::set_lib::lemma_int_range(0, n);
}

/// Indices of the edges that are alive, inner, and border two distinct
/// areas: the current carving candidates, in increasing index order.
fn eligible_inner(edges: &Vec<Edge>) -> (cands: Vec<usize>)
    ensures
        forall|k: int|
            0 <= k < cands.len() ==> (#[trigger] cands[k]) < edges.len()
                && edges[cands[k] as int].alive && edges[cands[k] as int].right is Some,
        forall|k1: int, k2: int| 0 <= k1 < k2 < cands.len() ==> cands[k1] < cands[k2],
        forall|k: int|
            0 <= k < cands.len() ==> (match edges[(#[trigger] cands[k]) as int].right {
                Some(rv) => edges[cands[k] as int].left != rv,
                None => false,
            }),
        cands.len() == 0 ==> forall|j: int|
            0 <= j < edges.len() ==> !eligible(#[trigger] edges[j]),
{
    let mut cands: Vec<usize> = Vec::new();
    let mut j: usize = 0;
    while j < edges.len()
        invariant
            j <= edges.len(),
            forall|k: int|
                0 <= k < cands.len() ==> (#[trigger] cands[k]) < j
                    && edges[cands[k] as int].alive && edges[cands[k] as int].right is Some,
            forall|k1: int, k2: int| 0 <= k1 < k2 < cands.len() ==> cands[k1] < cands[k2],
            forall|k: int|
                0 <= k < cands.len() ==> (match edges[(#[trigger] cands[k]) as int].right {
                    Some(rv) => edges[cands[k] as int].left != rv,
                    None => false,
                }),
            cands.len() == 0 ==> forall|jj: int|
                0 <= jj < j ==> !eligible(#[trigger] edges[jj]),
        decreases edges.len() - j,
    {
        let e = edges[j];
        match e.right {
            Some(rv) => {
                if e.alive && e.left != rv {
                    cands.push(j);
                }
            },
            None => {},
        }
        j = j + 1;
    }
    cands
}

/// Carve a random spanning tree: repeatedly pick a uniformly random inner
/// edge between two distinct areas, remove it, and merge the two areas by
/// relabelling. On a freshly built edge set carving always runs to
/// completion: while more than one area remains, some inner edge between
/// two distinct areas is still standing, because any two differently
/// labelled cells force a label change across some adjacent pair. Exactly
/// `width * height - 1` inner edges are removed, and afterwards every cell
/// is reachable from every cell through the opened passages: the open
/// borders form a spanning tree of the grid.
pub fn carve_spanning_tree(edges: &mut Vec<Edge>, width: usize, height: usize) -> (done: bool)
    requires
        grid_dims_ok(width as int, height as int),
        edges_ok(old(edges)@, width as int, height as int),
        inner_present(old(edges)@, width as int, height as int),
        edges_labelled(
            old(edges)@,
            identity_labels((width * height) as int),
            height as int,
        ),
        seg_distinct(old(edges)@),
    ensures
        done,
        edges_preserved(old(edges)@, final(edges)@),
        edges_ok(final(edges)@, width as int, height as int),
        alive_inner_count(final(edges)@) == alive_inner_count(old(edges)@) - (width * height
            - 1),
        all_cells_connected(final(edges)@, width as int, height as int),
{
    let ghost w = width as int;
    let ghost h = height as int;
    let ghost s0 = edges@;
    proof {
        assert(width * height >= 1) by (nonlinear_arith)
            requires width >= 1 && height >= 1;
        assert(width * height <= 1000 * 1000) by (nonlinear_arith)
            requires width <= 1000 && height <= 1000;
        lemma_identity_card((width * height) as int);
        assert forall|x1: int, y1: int, x2: int, y2: int|
            0 <= x1 < w && 0 <= y1 < h && 0 <= x2 < w && 0 <= y2 < h && identity_labels(
                (width * height) as int,
            )[#[trigger] cell_id(x1, y1, h)] == identity_labels((width * height) as int)[
            #[trigger] cell_id(x2, y2, h)] implies cells_connected(
            edges@,
            w,
            h,
            x1,
            y1,
            x2,
            y2,
        ) by {
            assert(0 <= cell_id(x1, y1, h) < w * h) by (nonlinear_arith)
                requires 0 <= x1 < w && 0 <= y1 < h && 1 <= h;
            assert(0 <= cell_id(x2, y2, h) < w * h) by (nonlinear_arith)
                requires 0 <= x2 < w && 0 <= y2 < h && 1 <= h;
            assert(identity_labels((width * height) as int)[cell_id(x1, y1, h)] == cell_id(
                x1,
                y1,
                h,
            ));
            lemma_cell_id_inj(x1, y1, x2, y2, h);
            lemma_self_connected(edges@, w, h, x1, y1);
        }
    }
    let ghost mut ao: Seq<int> = identity_labels((width * height) as int);
    let mut area_count: usize = width * height;
    while area_count > 1
        invariant
            grid_dims_ok(w, h),
            w == width as int,
            h == height as int,
            1 <= area_count <= width * height,
            edges_preserved(s0, edges@),
            edges_ok(edges@, w, h),
            inner_present(s0, w, h),
            alive_inner_count(edges@) == alive_inner_count(s0) - (width * height - area_count),
            ao.len() == width * height,
            forall|c: int| 0 <= c < ao.len() ==> 0 <= #[trigger] ao[c] < width * height,
            ao.to_set().finite(),
            ao.to_set().len() == area_count,
            edges_labelled(edges@, ao, h),
            seg_distinct(s0),
            forall|x1: int, y1: int, x2: int, y2: int|
                0 <= x1 < w && 0 <= y1 < h && 0 <= x2 < w && 0 <= y2 < h && ao[#[trigger] cell_id(
                    x1,
                    y1,
                    h,
                )] == ao[#[trigger] cell_id(x2, y2, h)] ==> cells_connected(
                    edges@,
                    w,
                    h,
                    x1,
                    y1,
                    x2,
                    y2,
                ),
        decreases area_count,
    {
        let ghost s_pre = edges@;
        let ghost ao_pre = ao;
        let cands = eligible_inner(edges);
        if cands.len() == 0 {
            proof {
                // Two areas remain, so two cells carry different labels;
                // along a lattice walk between them the label changes
                // across some adjacent pair, and the edge between that
                // pair is alive, inner, and differently labelled: an
                // eligible candidate, contradicting the empty list.
                let st = ao.to_set();
                vstd::set::axiom_set_choose_len(st);
                let l1 = st.choose();
                let s1 = st.remove(l1);
                vstd::set::axiom_set_remove_len(st, l1);
                vstd::set::axiom_set_remove_finite(st, l1);
                vstd::set::axiom_set_choose_len(s1);
                let l2 = s1.choose();
                assert(st.contains(l1));
                assert(st.contains(l2) && l2 != l1);
                assert(ao.contains(l1));
                assert(ao.contains(l2));
                let c1 = choose|c: int| 0 <= c < ao.len() && ao[c] == l1;
                let c2 = choose|c: int| 0 <= c < ao.len() && ao[c] == l2;
                lemma_cell_decompose(c1, w, h);
                lemma_cell_decompose(c2, w, h);
                lemma_grid_label_path(ao, w, h, c1 / h, c1 % h, c2 / h, c2 % h);
                if exists|x: int, y: int|
                    0 <= x < w && 0 <= y < h - 1 && ao[#[trigger] cell_id(x, y, h)] != ao[cell_id(
                        x,
                        y + 1,
                        h,
                    )] {
                    let (x, y) = choose|x: int, y: int|
                        0 <= x < w && 0 <= y < h - 1 && ao[#[trigger] cell_id(x, y, h)] != ao[
                            cell_id(x, y + 1, h)];
                    let i = choose|i: int|
                        0 <= i < s0.len() && (#[trigger] s0[i]).seg == h_seg(x, y + 1);
                    assert(edges@[i].seg == h_seg(x, y + 1));
                    assert(edge_wf(edges@[i], w, h));
                    assert(!is_boundary_edge(h_seg(x, y + 1), w, h));
                    assert(edge_left_cell(h_seg(x, y + 1), h) == cell_id(x, y, h));
                    assert(edge_right_cell(h_seg(x, y + 1), h) == cell_id(x, y + 1, h));
                    assert(edge_links(edges@[i], ao, h));
                    assert(eligible(edges@[i]));
                    assert(false);
                } else {
                    let (x, y) = choose|x: int, y: int|
                        0 <= x < w - 1 && 0 <= y < h && ao[#[trigger] cell_id(x, y, h)] != ao[
                            cell_id(x + 1, y, h)];
                    let i = choose|i: int|
                        0 <= i < s0.len() && (#[trigger] s0[i]).seg == v_seg(x + 1, y);
                    assert(edges@[i].seg == v_seg(x + 1, y));
                    assert(edge_wf(edges@[i], w, h));
                    assert(!is_boundary_edge(v_seg(x + 1, y), w, h));
                    assert(edge_left_cell(v_seg(x + 1, y), h) == cell_id(x, y, h));
                    assert(edge_right_cell(v_seg(x + 1, y), h) == cell_id(x + 1, y, h));
                    assert(edge_links(edges@[i], ao, h));
                    assert(eligible(edges@[i]));
                    assert(false);
                }
            }
        }
        let pick = random_below(cands.len());
        let eidx = cands[pick];
        let mut e = edges[eidx];
        let newlab = e.left;
        let oldlab: usize = match e.right {
            Some(v) => v,
            None => {
                proof {
                    assert(false);
                }
                0
            },
        };
        let ghost lc = edge_left_cell(edges@[eidx as int].seg, h);
        let ghost rc = edge_right_cell(edges@[eidx as int].seg, h);
        let ghost ks = edges@[eidx as int].seg;
        let ghost lx = if ks.b.x == ks.a.x + 1 { ks.a.x as int } else { ks.a.x as int - 1 };
        let ghost ly = if ks.b.x == ks.a.x + 1 { ks.a.y as int - 1 } else { ks.a.y as int };
        let ghost rx = ks.a.x as int;
        let ghost ry = ks.a.y as int;
        proof {
            assert(edge_links(edges@[eidx as int], ao, h));
            assert(ao[lc] == newlab as int);
            assert(ao[rc] == oldlab as int);
            assert(newlab != oldlab);
            assert(edge_wf(edges@[eidx as int], w, h));
            assert(!is_boundary_edge(ks, w, h));
            assert(lc == cell_id(lx, ly, h) && rc == cell_id(rx, ry, h));
            assert(0 <= lx < w && 0 <= ly < h && 0 <= rx < w && 0 <= ry < h);
            assert(adjacent_cells(lx, ly, rx, ry));
            if ks.b.x == ks.a.x + 1 {
                assert(ks == h_seg(rx, ry));
                assert(sep_of(lx, ly, rx, ry) == ks);
                assert(sep_of(rx, ry, lx, ly) == ks);
            } else {
                assert(ks == v_seg(rx, ry));
                assert(sep_of(lx, ly, rx, ry) == ks);
                assert(sep_of(rx, ry, lx, ly) == ks);
            }
        }
        e.alive = false;
        proof {
            lemma_count_update(edges@, eidx as int, e);
        }
        edges.set(eidx, e);

        let ghost s_mid = edges@;
        let mut k: usize = 0;
        while k < edges.len()
            invariant
                0 <= k <= edges.len(),
                edges@.len() == s_mid.len(),
                newlab < width * height,
                w == width as int,
                h == height as int,
                edges_preserved(s_mid, edges@),
                edges_ok(edges@, w, h),
                alive_inner_count(edges@) == alive_inner_count(s_mid),
                forall|i: int|
                    0 <= i < edges@.len() ==> (#[trigger] edges@[i]).alive == s_mid[i].alive,
                forall|i: int|
                    0 <= i < k ==> (#[trigger] edges@[i]).left == (if s_mid[i].left == newlab
                        || s_mid[i].left == oldlab {
                        newlab
                    } else {
                        s_mid[i].left
                    }) && edges@[i].right == (match s_mid[i].right {
                        Some(rv) => Some(
                            if rv == newlab || rv == oldlab {
                                newlab
                            } else {
                                rv
                            },
                        ),
                        None => None::<usize>,
                    }),
                forall|i: int| k <= i < edges@.len() ==> #[trigger] edges@[i] == s_mid[i],
            decreases edges.len() - k,
        {
            let mut ek = edges[k];
            let mut changed = false;
            if ek.left == oldlab {
                ek.left = newlab;
                changed = true;
            }
            match ek.right {
                Some(rv) => {
                    if rv == oldlab {
                        ek.right = Some(newlab);
                        changed = true;
                    }
                },
                None => {},
            }
            if changed {
                proof {
                    lemma_count_update(edges@, k as int, ek);
                }
                edges.set(k, ek);
            }
            k = k + 1;
        }
        proof {
            let ao_old = ao;
            ao = Seq::new(ao_old.len(), |c: int| if ao_old[c] == oldlab as int {
                newlab as int
            } else {
                ao_old[c]
            });
            // every inner edge is labelled by the merged labelling, and
            // the freshly carved edge now joins two cells of one area
            assert forall|i: int|
                0 <= i < edges@.len() implies edge_links(#[trigger] edges@[i], ao, h) && (
            !edges@[i].alive ==> (match edges@[i].right {
                Some(_) => ao[edge_left_cell(edges@[i].seg, h)] == ao[edge_right_cell(
                    edges@[i].seg,
                    h,
                )],
                None => true,
            })) by {
                assert(edge_links(s_mid[i], ao_old, h));
                assert(edges@[i].seg == s_mid[i].seg);
                if i == eidx as int {
                    assert(ao[lc] == newlab as int && ao[rc] == newlab as int);
                }
            }
            // the merged labelling uses exactly one label fewer
            assert forall|v: int|
                ao.to_set().contains(v) == ao_old.to_set().remove(oldlab as int).contains(
                    v,
                ) by {
                if ao.contains(v) {
                    let c = choose|c: int| 0 <= c < ao.len() && ao[c] == v;
                    assert(v != oldlab as int);
                    if ao_old[c] == oldlab as int {
                        assert(v == newlab as int);
                        assert(ao_old[lc] == newlab as int);
                        assert(ao_old.contains(v));
                    } else {
                        assert(ao_old.contains(v));
                    }
                }
                if v != oldlab as int && ao_old.contains(v) {
                    let c = choose|c: int| 0 <= c < ao_old.len() && ao_old[c] == v;
                    assert(ao[c] == v);
                    assert(ao.contains(v));
                }
                if v == oldlab as int {
                    assert forall|c: int| 0 <= c < ao.len() implies ao[c] != v by {}
                    if ao.contains(v) {
                        let c = choose|c: int| 0 <= c < ao.len() && ao[c] == v;
                        assert(false);
                    }
                }
            }
            assert(ao.to_set() =~= ao_old.to_set().remove(oldlab as int));
            assert(ao_old.to_set().contains(oldlab as int)) by {
                assert(ao_old[rc] == oldlab as int);
                assert(ao_old.contains(oldlab as int));
            }
            vstd::set::axiom_set_remove_len(ao_old.to_set(), oldlab as int);
            vstd::set::axiom_set_remove_finite(ao_old.to_set(), oldlab as int);

            // connectivity is preserved: within an old area nothing closed,
            // and the two merged areas are now joined through the carved
            // border
            assert(s_mid =~= s_pre.update(eidx as int, e));
            assert(edges@.len() == s_pre.len());
            assert forall|i: int|
                0 <= i < s_pre.len() implies (#[trigger] edges@[i]).seg == s_pre[i].seg && (
            edges@[i].alive ==> s_pre[i].alive) by {
                assert(edges@[i].alive == s_mid[i].alive);
            }
            assert forall|i: int, j: int|
                0 <= i < j < s_pre.len() implies (#[trigger] s_pre[i]).seg != (
            #[trigger] s_pre[j]).seg by {
                assert(s_pre[i].seg == s0[i].seg);
                assert(s_pre[j].seg == s0[j].seg);
            }
            assert(passage_open(edges@, lx, ly, rx, ry) && passage_open(
                edges@,
                rx,
                ry,
                lx,
                ly,
            )) by {
                assert forall|i: int|
                    0 <= i < edges@.len() && (#[trigger] edges@[i]).seg == ks
                        implies !edges@[i].alive by {
                    if i != eidx as int {
                        assert(s_pre[i].seg == ks);
                        assert(s_pre[eidx as int].seg == ks);
                        assert(false);
                    } else {
                        assert(edges@[i].alive == s_mid[i].alive);
                    }
                }
            }
            lemma_step_connected(edges@, w, h, lx, ly, rx, ry);
            lemma_step_connected(edges@, w, h, rx, ry, lx, ly);
            assert forall|x1: int, y1: int, x2: int, y2: int|
                0 <= x1 < w && 0 <= y1 < h && 0 <= x2 < w && 0 <= y2 < h && ao[#[trigger] cell_id(
                    x1,
                    y1,
                    h,
                )] == ao[#[trigger] cell_id(x2, y2, h)] implies cells_connected(
                edges@,
                w,
                h,
                x1,
                y1,
                x2,
                y2,
            ) by {
                assert(0 <= cell_id(x1, y1, h) < w * h) by (nonlinear_arith)
                    requires 0 <= x1 < w && 0 <= y1 < h && 1 <= h;
                assert(0 <= cell_id(x2, y2, h) < w * h) by (nonlinear_arith)
                    requires 0 <= x2 < w && 0 <= y2 < h && 1 <= h;
                let l1o = ao_old[cell_id(x1, y1, h)];
                let l2o = ao_old[cell_id(x2, y2, h)];
                if l1o == l2o {
                    assert(cells_connected(s_pre, w, h, x1, y1, x2, y2));
                    lemma_connected_monotone(s_pre, edges@, w, h, x1, y1, x2, y2);
                } else if l1o == newlab as int {
                    assert(l2o == oldlab as int);
                    assert(ao_old[cell_id(lx, ly, h)] == newlab as int);
                    assert(ao_old[cell_id(rx, ry, h)] == oldlab as int);
                    assert(cells_connected(s_pre, w, h, x1, y1, lx, ly));
                    lemma_connected_monotone(s_pre, edges@, w, h, x1, y1, lx, ly);
                    assert(cells_connected(s_pre, w, h, rx, ry, x2, y2));
                    lemma_connected_monotone(s_pre, edges@, w, h, rx, ry, x2, y2);
                    lemma_connected_trans(edges@, w, h, x1, y1, lx, ly, rx, ry);
                    lemma_connected_trans(edges@, w, h, x1, y1, rx, ry, x2, y2);
                } else {
                    assert(l1o == oldlab as int && l2o == newlab as int);
                    assert(ao_old[cell_id(lx, ly, h)] == newlab as int);
                    assert(ao_old[cell_id(rx, ry, h)] == oldlab as int);
                    assert(cells_connected(s_pre, w, h, x1, y1, rx, ry));
                    lemma_connected_monotone(s_pre, edges@, w, h, x1, y1, rx, ry);
                    assert(cells_connected(s_pre, w, h, lx, ly, x2, y2));
                    lemma_connected_monotone(s_pre, edges@, w, h, lx, ly, x2, y2);
                    lemma_connected_trans(edges@, w, h, x1, y1, rx, ry, lx, ly);
                    lemma_connected_trans(edges@, w, h, x1, y1, lx, ly, x2, y2);
                }
            }
        }
        area_count = area_count - 1;
    }
    proof {
        // one area left: every cell carries the same label, so the
        // connectivity invariant covers every pair of cells
        assert forall|x1: int, y1: int, x2: int, y2: int|
            0 <= x1 < w && 0 <= y1 < h && 0 <= x2 < w && 0 <= y2 < h implies cells_connected(
            edges@,
            w,
            h,
            x1,
            y1,
            x2,
            y2,
        ) by {
            assert(0 <= cell_id(x1, y1, h) < w * h) by (nonlinear_arith)
                requires 0 <= x1 < w && 0 <= y1 < h && 1 <= h;
            assert(0 <= cell_id(x2, y2, h) < w * h) by (nonlinear_arith)
                requires 0 <= x2 < w && 0 <= y2 < h && 1 <= h;
            let v1 = ao[cell_id(x1, y1, h)];
            let v2 = ao[cell_id(x2, y2, h)];
            assert(ao.contains(v1));
            assert(ao.contains(v2));
            let st = ao.to_set();
            assert(st.contains(v1) && st.contains(v2));
            if v1 != v2 {
                vstd::set::axiom_set_remove_len(st, v1);
                vstd::set::axiom_set_remove_finite(st, v1);
                assert(st.remove(v1).contains(v2));
                st.remove(v1).lemma_len0_is_empty();
                assert(false);
            }
        }
        assert(all_cells_connected(edges@, width as int, height as int));
    }
    let done = area_count == 1;
    done
}

/// Build the full edge set of the `width x height` lattice: every unit
/// segment once, labelled with the area ids of the cells that touch it.
#[verifier::rlimit(50)]
pub fn build_edges(width: usize, height: usize) -> (edges: Vec<Edge>)
    requires
        grid_dims_ok(width as int, height as int),
    ensures
        edges.len() == width * (height + 1) + (width + 1) * height,
        forall|i: int|
            0 <= i < edges.len() ==> edge_wf(#[trigger] edges[i], width as int, height as int),
        forall|i: int| 0 <= i < edges.len() ==> (#[trigger] edges[i]).alive,
        boundary_present(edges@, width as int, height as int),
        inner_present(edges@, width as int, height as int),
        seg_distinct(edges@),
        edges_labelled(edges@, identity_labels((width * height) as int), height as int),
        alive_inner_count(edges@) == (width - 1) * height + width * (height - 1),
{
    let ghost w = width as int;
    let ghost ids = identity_labels((width * height) as int);
    let ghost h = height as int;
    let mut edges: Vec<Edge> = Vec::new();

    let mut x: usize = 0;
    while x < width
        invariant
            grid_dims_ok(w, h),
            w == width as int,
            h == height as int,
            ids == identity_labels((width * height) as int),
            0 <= x <= width,
            edges.len() == x * (height + 1),
            forall|i: int| 0 <= i < edges.len() ==> edge_wf(#[trigger] edges[i], w, h),
            forall|i: int| 0 <= i < edges.len() ==> (#[trigger] edges[i]).alive,
            forall|i: int| 0 <= i < edges.len() ==> edge_links(#[trigger] edges[i], ids, h),
            forall|i: int|
                0 <= i < edges.len() ==> ((#[trigger] edges[i]).seg.b.x == edges[i].seg.a.x + 1
                    && edges[i].seg.b.y == edges[i].seg.a.y && edges[i].seg.a.x < x),
            seg_distinct(edges@),
            forall|xx: int, yy: int|
                0 <= xx < x && 0 <= yy <= h ==> exists|i: int|
                    0 <= i < edges.len() && (#[trigger] edges[i]).seg == #[trigger] h_seg(xx, yy),
            alive_inner_count(edges@) == x * (h - 1),
        decreases width - x,
    {
        let mut y: usize = 0;
        while y <= height
            invariant
                grid_dims_ok(w, h),
                w == width as int,
                h == height as int,
                ids == identity_labels((width * height) as int),
                0 <= x < width,
                0 <= y <= height + 1,
                edges.len() == x * (height + 1) + y,
                forall|i: int| 0 <= i < edges.len() ==> edge_wf(#[trigger] edges[i], w, h),
                forall|i: int| 0 <= i < edges.len() ==> (#[trigger] edges[i]).alive,
                forall|i: int| 0 <= i < edges.len() ==> edge_links(#[trigger] edges[i], ids, h),
                forall|i: int|
                    0 <= i < edges.len() ==> ((#[trigger] edges[i]).seg.b.x == edges[i].seg.a.x
                        + 1 && edges[i].seg.b.y == edges[i].seg.a.y && (edges[i].seg.a.x < x || (
                    edges[i].seg.a.x == x && edges[i].seg.a.y < y))),
                seg_distinct(edges@),
                forall|xx: int, yy: int|
                    0 <= xx < x && 0 <= yy <= h ==> exists|i: int|
                        0 <= i < edges.len() && (#[trigger] edges[i]).seg == #[trigger] h_seg(xx, yy),
                forall|yy: int|
                    0 <= yy < y ==> exists|i: int|
                        0 <= i < edges.len() && (#[trigger] edges[i]).seg == #[trigger] h_seg(x as int, yy),
                alive_inner_count(edges@) == x * (h - 1) + if y >= 1 { (y - 1) as int } else {
                    0int
                } - if y == height + 1 { 1int } else { 0int },
            decreases height + 1 - y,
        {
            proof {
                assert(x * height + y <= 999 * 1000 + 1000) by (nonlinear_arith)
                    requires 0 <= x <= 999 && height <= 1000 && y <= 1000;
                assert(x * (height + 1) + y + 1 <= 1000 * 1001 + 1001) by (nonlinear_arith)
                    requires 0 <= x <= 999 && height <= 1000 && y <= 1000;
            }
            let seg = Line::new(
                Point::new(x as i64, y as i64),
                Point::new(x as i64 + 1, y as i64),
            );
            let e: Edge = if y == 0 {
                Edge { seg, left: x * height, right: None, alive: true }
            } else if y == height {
                Edge { seg, left: x * height + (height - 1), right: None, alive: true }
            } else {
                Edge {
                    seg,
                    left: x * height + (y - 1),
                    right: Some(x * height + y),
                    alive: true,
                }
            };
            proof {
                assert(x * height + height - 1 < width * height) by (nonlinear_arith)
                    requires 0 <= x < width && 1 <= height;
                assert(0 <= x * height) by (nonlinear_arith)
                    requires 0 <= x && 0 <= height;
                assert(edge_wf(e, w, h));
                assert(edge_links(e, ids, h));
                assert(edges@.push(e).drop_last() =~= edges@);
            }
            edges.push(e);
            proof {
                assert(edges@[edges@.len() - 1].seg == h_seg(x as int, y as int));
                assert forall|i: int|
                    0 <= i < edges@.len() - 1 implies (#[trigger] edges@[i]).seg != edges@[
                    edges@.len() - 1].seg by {
                    assert(edges@[i].seg.a.x < x as int || edges@[i].seg.a.y < y as int);
                }
            }
            y = y + 1;
        }
        x = x + 1;
        proof {
            assert((x - 1) * (h + 1) + (h + 1) == x * (h + 1)) by (nonlinear_arith);
            assert((x - 1) * (h - 1) + (h - 1) == x * (h - 1)) by (nonlinear_arith);
        }
    }

    let mut x2: usize = 0;
    while x2 <= width
        invariant
            grid_dims_ok(w, h),
            w == width as int,
            h == height as int,
            ids == identity_labels((width * height) as int),
            0 <= x2 <= width + 1,
            edges.len() == width * (height + 1) + x2 * height,
            forall|i: int| 0 <= i < edges.len() ==> edge_wf(#[trigger] edges[i], w, h),
            forall|i: int| 0 <= i < edges.len() ==> (#[trigger] edges[i]).alive,
            forall|i: int| 0 <= i < edges.len() ==> edge_links(#[trigger] edges[i], ids, h),
            forall|i: int|
                0 <= i < edges.len() ==> ((#[trigger] edges[i]).seg.b.x == edges[i].seg.a.x + 1
                    && edges[i].seg.b.y == edges[i].seg.a.y) || (edges[i].seg.b.x
                    == edges[i].seg.a.x && edges[i].seg.b.y == edges[i].seg.a.y + 1
                    && edges[i].seg.a.x < x2),
            seg_distinct(edges@),
            forall|xx: int, yy: int|
                0 <= xx < w && 0 <= yy <= h ==> exists|i: int|
                    0 <= i < edges.len() && (#[trigger] edges[i]).seg == #[trigger] h_seg(xx, yy),
            forall|xx: int, yy: int|
                0 <= xx < x2 && 0 <= yy < h ==> exists|i: int|
                    0 <= i < edges.len() && (#[trigger] edges[i]).seg == #[trigger] v_seg(xx, yy),
            alive_inner_count(edges@) == width * (h - 1) + (if x2 >= 1 { (x2 - 1) as int } else {
                0int
            }) * h - if x2 == width + 1 { h } else { 0int },
        decreases width + 1 - x2,
    {
        let mut y2: usize = 0;
        while y2 < height
            invariant
                grid_dims_ok(w, h),
                w == width as int,
                h == height as int,
                ids == identity_labels((width * height) as int),
                0 <= x2 <= width,
                0 <= y2 <= height,
                edges.len() == width * (height + 1) + x2 * height + y2,
                forall|i: int| 0 <= i < edges.len() ==> edge_wf(#[trigger] edges[i], w, h),
                forall|i: int| 0 <= i < edges.len() ==> (#[trigger] edges[i]).alive,
                forall|i: int| 0 <= i < edges.len() ==> edge_links(#[trigger] edges[i], ids, h),
                forall|i: int|
                    0 <= i < edges.len() ==> ((#[trigger] edges[i]).seg.b.x == edges[i].seg.a.x
                        + 1 && edges[i].seg.b.y == edges[i].seg.a.y) || (edges[i].seg.b.x
                        == edges[i].seg.a.x && edges[i].seg.b.y == edges[i].seg.a.y + 1 && (
                    edges[i].seg.a.x < x2 || (edges[i].seg.a.x == x2 && edges[i].seg.a.y < y2))),
                seg_distinct(edges@),
                forall|xx: int, yy: int|
                    0 <= xx < w && 0 <= yy <= h ==> exists|i: int|
                        0 <= i < edges.len() && (#[trigger] edges[i]).seg == #[trigger] h_seg(xx, yy),
                forall|xx: int, yy: int|
                    0 <= xx < x2 && 0 <= yy < h ==> exists|i: int|
                        0 <= i < edges.len() && (#[trigger] edges[i]).seg == #[trigger] v_seg(xx, yy),
                forall|yy: int|
                    0 <= yy < y2 ==> exists|i: int|
                        0 <= i < edges.len() && (#[trigger] edges[i]).seg == #[trigger] v_seg(x2 as int, yy),
                alive_inner_count(edges@) == width * (h - 1) + (if x2 >= 1 {
                    (x2 - 1) as int
                } else {
                    0int
                }) * h + if 1 <= x2 <= width - 1 { y2 as int } else { 0int },
            decreases height - y2,
        {
            proof {
                assert(width * (height + 1) + x2 * height + y2 + 1 <= 1000 * 1001 + 1000 * 1000
                    + 1001) by (nonlinear_arith)
                    requires width <= 1000 && 0 <= x2 <= 1000 && height <= 1000 && y2 <= 1000;
                assert(width * height <= 1000 * 1000) by (nonlinear_arith)
                    requires width <= 1000 && height <= 1000;
                assert((width - 1) * height + y2 < width * height) by (nonlinear_arith)
                    requires 1 <= width && 0 <= y2 < height;
                assert(x2 >= 1 ==> (x2 - 1) * height + y2 < width * height) by (nonlinear_arith)
                    requires 0 <= x2 <= width && 0 <= y2 < height;
                assert(x2 < width ==> x2 * height + y2 < width * height) by (nonlinear_arith)
                    requires 0 <= x2 && 0 <= y2 < height;
                assert(x2 >= 1 ==> 0 <= (x2 - 1) * height) by (nonlinear_arith)
                    requires height >= 0;
                assert(0 <= x2 * height) by (nonlinear_arith)
                    requires height >= 0 && x2 >= 0;
            }
            let seg = Line::new(
                Point::new(x2 as i64, y2 as i64),
                Point::new(x2 as i64, y2 as i64 + 1),
            );
            let e: Edge = if x2 == 0 {
                Edge { seg, left: y2, right: None, alive: true }
            } else if x2 == width {
                Edge { seg, left: (width - 1) * height + y2, right: None, alive: true }
            } else {
                Edge {
                    seg,
                    left: (x2 - 1) * height + y2,
                    right: Some(x2 * height + y2),
                    alive: true,
                }
            };
            proof {
                assert(edge_wf(e, w, h));
                assert(edge_links(e, ids, h));
                assert(edges@.push(e).drop_last() =~= edges@);
            }
            edges.push(e);
            proof {
                assert(edges@[edges@.len() - 1].seg == v_seg(x2 as int, y2 as int));
                assert forall|i: int|
                    0 <= i < edges@.len() - 1 implies (#[trigger] edges@[i]).seg != edges@[
                    edges@.len() - 1].seg by {
                    let si = edges@[i].seg;
                    if si.b.x == si.a.x + 1 && si.b.y == si.a.y {
                        assert(si != v_seg(x2 as int, y2 as int));
                    } else {
                        assert(si.a.x < x2 as int || si.a.y < y2 as int);
                    }
                }
            }
            y2 = y2 + 1;
        }
        x2 = x2 + 1;
        proof {
            assert((x2 - 1) * h + h == x2 * h) by (nonlinear_arith);
            assert((x2 - 2) * h + h == (x2 - 1) * h) by (nonlinear_arith);
        }
    }
    proof {
        assert(width * h - h == (width - 1) * h) by (nonlinear_arith);
        assert(width * (h - 1) + (width - 1) * h == (width - 1) * height + width * (height - 1))
            by (nonlinear_arith)
            requires w == width as int && h == height as int;
        assert forall|l: Line| is_boundary_edge(l, w, h) implies exists|i: int|
            0 <= i < edges@.len() && (#[trigger] edges@[i]).seg == l && edges@[i].right is None
                && edges@[i].alive by {
            if l.b.x == l.a.x + 1 {
                assert(l == h_seg(l.a.x as int, l.a.y as int));
            } else {
                assert(l == v_seg(l.a.x as int, l.a.y as int));
            }
            let i = choose|i: int| 0 <= i < edges@.len() && (#[trigger] edges@[i]).seg == l;
            assert(edge_wf(edges@[i], w, h));
            assert(edges@[i].right is None);
        }
    }
    edges
}

/// Indices of all alive inner edges, in increasing order; there are exactly
/// `alive_inner_count` of them.
fn alive_inner_indices(edges: &Vec<Edge>) -> (cands: Vec<usize>)
    ensures
        cands.len() == alive_inner_count(edges@),
        forall|k: int|
            0 <= k < cands.len() ==> (#[trigger] cands[k]) < edges.len()
                && edges[cands[k] as int].alive && edges[cands[k] as int].right is Some,
{
    let mut cands: Vec<usize> = Vec::new();
    let mut j: usize = 0;
    while j < edges.len()
        invariant
            j <= edges.len(),
            cands.len() == alive_inner_count(edges@.take(j as int)),
            forall|k: int|
                0 <= k < cands.len() ==> (#[trigger] cands[k]) < j
                    && edges[cands[k] as int].alive && edges[cands[k] as int].right is Some,
        decreases edges.len() - j,
    {
        proof {
            assert(edges@.take(j as int + 1).drop_last() =~= edges@.take(j as int));
            assert(edges@.take(j as int + 1).last() == edges@[j as int]);
            lemma_count_le_len(edges@.take(j as int));
        }
        let e = edges[j];
        match e.right {
            Some(_) => {
                if e.alive {
                    cands.push(j);
                }
            },
            None => {},
        }
        j = j + 1;
    }
    proof {
        assert(edges@.take(edges@.len() as int) =~= edges@);
    }
    cands
}

/// Remove `floor(alive_inner * dropout_num / dropout_den)` additional inner
/// edges, chosen uniformly at random without replacement. This trades the
/// spanning tree's unique paths for configurable extra openness; boundary
/// edges and all other fields are untouched.
pub fn apply_dropout(edges: &mut Vec<Edge>, dropout_num: u64, dropout_den: u64)
    requires
        0 < dropout_den <= 1_000_000,
        dropout_num <= dropout_den,
        old(edges).len() <= 10_000_000,
    ensures
        edges_preserved(old(edges)@, final(edges)@),
        forall|i: int|
            0 <= i < old(edges)@.len() ==> ((#[trigger] final(edges)@[i]).left == old(
                edges,
            )@[i].left && final(edges)@[i].right == old(edges)@[i].right),
        alive_inner_count(final(edges)@) == alive_inner_count(old(edges)@) - (alive_inner_count(
            old(edges)@,
        ) * dropout_num) / (dropout_den as int),
{
    let ghost s0 = edges@;
    let cands0 = alive_inner_indices(edges);
    let a0: usize = cands0.len();
    proof {
        lemma_count_le_len(s0);
        lemma_frac_scale_bounds(dropout_num as int, dropout_den as int, a0 as int);
        assert(a0 as int * dropout_num == dropout_num * a0 as int);
        assert(a0 as int * dropout_num as int <= 10_000_000 * 1_000_000) by (nonlinear_arith)
            requires a0 <= 10_000_000 && dropout_num <= 1_000_000;
    }
    let k64: u64 = (a0 as u64) * dropout_num / dropout_den;
    let k: usize = k64 as usize;

    let mut removed: usize = 0;
    while removed < k
        invariant
            removed <= k,
            k as int == (alive_inner_count(s0) * dropout_num) / (dropout_den as int),
            k <= alive_inner_count(s0),
            edges@.len() == s0.len(),
            edges_preserved(s0, edges@),
            forall|i: int|
                0 <= i < s0.len() ==> ((#[trigger] edges@[i]).left == s0[i].left && edges@[i].right
                    == s0[i].right),
            alive_inner_count(edges@) == alive_inner_count(s0) - removed,
        decreases k - removed,
    {
        let cands = alive_inner_indices(edges);
        let pick = random_below(cands.len());
        let cidx = cands[pick];
        let mut e = edges[cidx];
        e.alive = false;
        proof {
            lemma_count_update(edges@, cidx as int, e);
        }
        edges.set(cidx, e);
        removed = removed + 1;
    }
}

/// Generate the lattice maze: build every grid edge, carve a random
/// spanning tree, apply dropout, and return the segments of the surviving
/// walls. Every returned segment is a unit grid edge, every outer boundary
/// segment of the grid is among them, and the maze is connected: any cell
/// can be reached from any cell through borders that carry no wall.
pub fn make_labyrinth(width: usize, height: usize, dropout_num: u64, dropout_den: u64) -> (walls:
    Vec<Line>)
    requires
        grid_dims_ok(width as int, height as int),
        0 < dropout_den <= 1_000_000,
        dropout_num <= dropout_den,
    ensures
        forall|j: int|
            0 <= j < walls.len() ==> is_grid_edge(#[trigger] walls[j], width as int, height as int),
        forall|l: Line|
            is_boundary_edge(l, width as int, height as int) ==> exists|j: int|
                0 <= j < walls.len() && (#[trigger] walls[j]) == l,
        maze_connected(walls@, width as int, height as int),
{
    let ghost w = width as int;
    let ghost h = height as int;
    let mut edges = build_edges(width, height);
    let ghost s_built = edges@;
    proof {
        assert(width * (height + 1) + (width + 1) * height <= 1000 * 1001 + 1001 * 1000)
            by (nonlinear_arith)
            requires width <= 1000 && height <= 1000;
    }
    let _completed = carve_spanning_tree(&mut edges, width, height);
    let ghost s_carved = edges@;
    apply_dropout(&mut edges, dropout_num, dropout_den);
    proof {
        lemma_boundary_preserved(s_built, s_carved, w, h);
        lemma_boundary_preserved(s_carved, edges@, w, h);
        assert forall|i: int| 0 <= i < edges@.len() implies edge_wf(
            #[trigger] edges@[i],
            w,
            h,
        ) by {
            assert(edge_wf(s_carved[i], w, h));
        }
        lemma_all_connected_monotone(s_carved, edges@, w, h);
    }

    let mut walls: Vec<Line> = Vec::new();
    let mut i: usize = 0;
    while i < edges.len()
        invariant
            i <= edges.len(),
            edges_ok(edges@, w, h),
            w == width as int,
            h == height as int,
            forall|j: int|
                0 <= j < walls.len() ==> is_grid_edge(#[trigger] walls[j], w, h),
            forall|ii: int|
                0 <= ii < i && (#[trigger] edges@[ii]).alive ==> exists|t: int|
                    0 <= t < walls.len() && (#[trigger] walls@[t]) == edges@[ii].seg,
            all_cells_connected(edges@, w, h),
            walls_sound(edges@, walls@),
        decreases edges.len() - i,
    {
        let e = edges[i];
        if e.alive {
            let ghost walls_old = walls@;
            walls.push(e.seg);
            proof {
                assert forall|ii: int|
                    0 <= ii < i && (#[trigger] edges@[ii]).alive implies exists|t: int|
                        0 <= t < walls@.len() && (#[trigger] walls@[t]) == edges@[ii].seg by {
                    let t0 = choose|t0: int|
                        0 <= t0 < walls_old.len() && (#[trigger] walls_old[t0]) == edges@[ii].seg;
                    assert(walls@[t0] == walls_old[t0]);
                }
                assert(walls@[walls@.len() - 1] == edges@[i as int].seg);
                assert forall|t: int|
                    0 <= t < walls@.len() implies exists|ii: int|
                        0 <= ii < edges@.len() && (#[trigger] edges@[ii]).alive && edges@[ii].seg
                            == #[trigger] walls@[t] by {
                    if t < walls_old.len() {
                        assert(walls@[t] == walls_old[t]);
                        let i0 = choose|i0: int|
                            0 <= i0 < edges@.len() && (#[trigger] edges@[i0]).alive
                                && edges@[i0].seg == walls_old[t];
                        assert(edges@[i0].alive && edges@[i0].seg == walls@[t]);
                    } else {
                        assert(edges@[i as int].alive && edges@[i as int].seg == walls@[t]);
                    }
                }
                assert(walls_sound(edges@, walls@));
            }
        }
        i = i + 1;
    }
    proof {
        lemma_edges_to_walls_connected(edges@, walls@, w, h);
    }
    proof {
        assert forall|l: Line| is_boundary_edge(l, w, h) implies exists|j: int|
            0 <= j < walls.len() && (#[trigger] walls@[j]) == l by {
            let i0 = choose|i0: int|
                0 <= i0 < edges@.len() && (#[trigger] edges@[i0]).seg == l && edges@[i0].right
                    is None && edges@[i0].alive;
            assert(exists|t: int| 0 <= t < walls.len() && (#[trigger] walls@[t]) == edges@[i0].seg);
        }
    }
    walls
}

} // verus!
