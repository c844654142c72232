//! The game core: wall generation in world space, visibility rays,
//! movement resolution, and the per-frame queries of the agent.
use vstd::prelude::*;

use crate::compress::{
    all_wall_form, compress_labyrinth, covered, covers, pairwise_non_extending, wall_form,
};
use crate::geometry::{
    betw, clamp_toward, clamped_step, in_range, intersection_spec, line_in_range, point_in_range,
    sdist, Line, Point,
};
use crate::grid::{find_cell_spec, grid_wf, search_spec, Grid};
use crate::maze::{grid_dims_ok, is_boundary_edge, is_grid_edge, make_labyrinth};
use crate::rng::random_below;
use crate::trig::{cos_deg, cos_milli, sin_deg, sin_milli};

verus! {

/// A world-space wall of a maze with `w x h` cells of size `g`: a
/// normalized wall segment within the window rectangle.
pub open spec fn world_wall_ok(l: Line, g: int, w: int, h: int) -> bool {
    &&& wall_form(l)
    &&& l.a.x <= l.b.x
    &&& l.a.y <= l.b.y
    &&& 0 <= l.a.x
    &&& l.b.x <= w * g
    &&& 0 <= l.a.y
    &&& l.b.y <= h * g
}

/// Generate the world-space wall set: carve the lattice maze, compress the
/// surviving walls into maximal runs, and scale lattice coordinates by the
/// cell size.
pub fn make_walls(grid_size: usize, width: usize, height: usize, dropout_num: u64, dropout_den: u64)
    -> (walls: Vec<Line>)
    requires
        grid_dims_ok(width as int, height as int),
        1 <= grid_size <= 1000,
        0 < dropout_den <= 1_000_000,
        dropout_num <= dropout_den,
    ensures
        forall|t: int|
            0 <= t < walls.len() ==> world_wall_ok(
                #[trigger] walls[t],
                grid_size as int,
                width as int,
                height as int,
            ),
        pairwise_non_extending(walls@),
        forall|px: int, py: int|
            on_window_boundary(
                px,
                py,
                width as int * grid_size as int,
                height as int * grid_size as int,
            ) ==> covered(walls@, px, py),
{
    let ghost w = width as int;
    let ghost h = height as int;
    let ghost g = grid_size as int;
    let lattice = make_labyrinth(width, height, dropout_num, dropout_den);
    let ghost lat = lattice@;
    proof {
        assert forall|i: int| 0 <= i < lattice@.len() implies wall_form(#[trigger] lattice@[i]) by {
            assert(is_grid_edge(lattice@[i], w, h));
        }
    }
    let compressed = compress_labyrinth(lattice);
    proof {
        assert forall|t: int|
            0 <= t < compressed@.len() implies (0 <= (#[trigger] compressed@[t]).a.x
            && compressed@[t].b.x <= w && 0 <= compressed@[t].a.y && compressed@[t].b.y <= h
            && compressed@[t].a.x <= compressed@[t].b.x && compressed@[t].a.y
            <= compressed@[t].b.y) by {
            let l = compressed@[t];
            assert(wall_form(l));
            assert(covers(l, 2 * l.a.x, 2 * l.a.y));
            assert(covers(l, 2 * l.b.x, 2 * l.b.y));
            assert(covered(compressed@, 2 * l.a.x, 2 * l.a.y));
            assert(covered(compressed@, 2 * l.b.x, 2 * l.b.y));
            let ia = choose|ia: int|
                0 <= ia < lattice@.len() && covers(#[trigger] lattice@[ia], 2 * l.a.x, 2 * l.a.y);
            let ib = choose|ib: int|
                0 <= ib < lattice@.len() && covers(#[trigger] lattice@[ib], 2 * l.b.x, 2 * l.b.y);
            assert(is_grid_edge(lattice@[ia], w, h));
            assert(is_grid_edge(lattice@[ib], w, h));
        }
    }
    let mut walls: Vec<Line> = Vec::new();
    let mut t: usize = 0;
    while t < compressed.len()
        invariant
            t <= compressed.len(),
            1 <= grid_size <= 1000,
            g == grid_size as int,
            w == width as int,
            h == height as int,
            grid_dims_ok(w, h),
            all_wall_form(compressed@),
            pairwise_non_extending(compressed@),
            forall|j: int|
                0 <= j < compressed@.len() ==> (0 <= (#[trigger] compressed@[j]).a.x
                    && compressed@[j].b.x <= w && 0 <= compressed@[j].a.y && compressed@[j].b.y
                    <= h && compressed@[j].a.x <= compressed@[j].b.x && compressed@[j].a.y
                    <= compressed@[j].b.y),
            walls.len() == t,
            forall|j: int|
                0 <= j < t ==> #[trigger] walls@[j] == scale_line(compressed@[j], g),
            forall|j: int| 0 <= j < t ==> world_wall_ok(#[trigger] walls@[j], g, w, h),
        decreases compressed.len() - t,
    {
        let l = compressed[t];
        proof {
            assert(0 <= l.a.x * g <= l.b.x * g <= w * g <= 1_000_000) by (nonlinear_arith)
                requires
                    0 <= l.a.x <= l.b.x <= w,
                    1 <= g <= 1000,
                    w <= 1000,
            ;
            assert(0 <= l.a.y * g <= l.b.y * g <= h * g <= 1_000_000) by (nonlinear_arith)
                requires
                    0 <= l.a.y <= l.b.y <= h,
                    1 <= g <= 1000,
                    h <= 1000,
            ;
        }
        let scaled = Line::new(l.a.scaled(grid_size as i64), l.b.scaled(grid_size as i64));
        proof {
            assert(scaled == scale_line(l, g));
            assert(l.a.x == l.b.x ==> scaled.a.x == scaled.b.x);
            assert(l.a.y == l.b.y ==> scaled.a.y == scaled.b.y);
            assert(l.a != l.b ==> scaled.a != scaled.b) by (nonlinear_arith)
                requires
                    g >= 1,
                    scaled.a.x == l.a.x * g,
                    scaled.a.y == l.a.y * g,
                    scaled.b.x == l.b.x * g,
                    scaled.b.y == l.b.y * g,
                    -1_000_000_000 <= l.a.x * g <= 1_000_000_000,
                    -1_000_000_000 <= l.a.y * g <= 1_000_000_000,
                    -1_000_000_000 <= l.b.x * g <= 1_000_000_000,
                    -1_000_000_000 <= l.b.y * g <= 1_000_000_000,
            ;
            assert(world_wall_ok(scaled, g, w, h));
        }
        walls.push(scaled);
        t = t + 1;
    }
    proof {
        assert forall|i: int, j: int|
            0 <= i < walls@.len() && 0 <= j < walls@.len() && i != j
                implies !crate::geometry::extends_spec(walls@[i], walls@[j]) by {
            assert(walls@[i] == scale_line(compressed@[i], g));
            assert(walls@[j] == scale_line(compressed@[j], g));
            lemma_scale_extends(compressed@[i], compressed@[j], g);
            assert(!crate::geometry::extends_spec(compressed@[i], compressed@[j]));
        }
        assert forall|px: int, py: int|
            on_window_boundary(px, py, w * g, h * g) implies covered(walls@, px, py) by {
            if (py == 0 || py == 2 * (h * g)) && 0 <= px <= 2 * (w * g) {
                let fixed: int = if py == 0 { 0 } else { h };
                vstd::arithmetic::div_mod::lemma_fundamental_div_mod(px, 2 * g);
                vstd::arithmetic::div_mod::lemma_mod_bound(px, 2 * g);
                vstd::arithmetic::div_mod::lemma_div_pos_is_pos(px, 2 * g);
                let k0 = px / (2 * g);
                let k: int = if k0 >= w { w - 1 } else { k0 };
                assert(2 * g * k <= px <= 2 * g * (k + 1) && 0 <= k < w) by (nonlinear_arith)
                    requires
                        px == 2 * g * k0 + px % (2 * g),
                        0 <= px % (2 * g) < 2 * g,
                        0 <= k0,
                        k == (if k0 >= w { w - 1 } else { k0 }),
                        0 <= px <= 2 * (w * g),
                        1 <= w,
                        1 <= g,
                ;
                assert(is_boundary_edge(crate::maze::h_seg(k, fixed), w, h));
                let j0 = choose|j0: int| 0 <= j0 < lat.len() && (#[trigger] lat[j0]) == crate::maze::h_seg(k, fixed);
                assert(covers(lat[j0], 2 * k + 1, 2 * fixed));
                assert(covered(lat, 2 * k + 1, 2 * fixed));
                assert(covered(compressed@, 2 * k + 1, 2 * fixed));
                lemma_scaled_run_cover(compressed@, walls@, g, k, fixed, px, true);
                assert(2 * g * fixed == py) by (nonlinear_arith)
                    requires fixed == (if py == 0 { 0int } else { h }) && (py == 0 || py == 2 * (h * g));
            } else {
                let fixed: int = if px == 0 { 0 } else { w };
                vstd::arithmetic::div_mod::lemma_fundamental_div_mod(py, 2 * g);
                vstd::arithmetic::div_mod::lemma_mod_bound(py, 2 * g);
                vstd::arithmetic::div_mod::lemma_div_pos_is_pos(py, 2 * g);
                let k0 = py / (2 * g);
                let k: int = if k0 >= h { h - 1 } else { k0 };
                assert(2 * g * k <= py <= 2 * g * (k + 1) && 0 <= k < h) by (nonlinear_arith)
                    requires
                        py == 2 * g * k0 + py % (2 * g),
                        0 <= py % (2 * g) < 2 * g,
                        0 <= k0,
                        k == (if k0 >= h { h - 1 } else { k0 }),
                        0 <= py <= 2 * (h * g),
                        1 <= h,
                        1 <= g,
                ;
                assert(is_boundary_edge(crate::maze::v_seg(fixed, k), w, h));
                let j0 = choose|j0: int| 0 <= j0 < lat.len() && (#[trigger] lat[j0]) == crate::maze::v_seg(fixed, k);
                assert(covers(lat[j0], 2 * fixed, 2 * k + 1));
                assert(covered(lat, 2 * fixed, 2 * k + 1));
                assert(covered(compressed@, 2 * fixed, 2 * k + 1));
                lemma_scaled_run_cover(compressed@, walls@, g, k, fixed, py, false);
                assert(2 * g * fixed == px) by (nonlinear_arith)
                    requires fixed == (if px == 0 { 0int } else { w }) && (px == 0 || px == 2 * (w * g));
            }
        }
    }
    walls
}

/// The point `(px, py)`, in doubled world coordinates, lies on the outer
/// boundary of a window of `wpx x hpx` world units.
pub open spec fn on_window_boundary(px: int, py: int, wpx: int, hpx: int) -> bool {
    ((py == 0 || py == 2 * hpx) && 0 <= px <= 2 * wpx) || ((px == 0 || px == 2 * wpx) && 0 <= py
        <= 2 * hpx)
}

/// A lattice wall covering the midpoint of a unit run spans the whole run,
/// so its scaled image covers every world point of the run.
proof fn lemma_scaled_run_cover(
    zipped: Seq<Line>,
    walls: Seq<Line>,
    g: int,
    k: int,
    fixed: int,
    px: int,
    horizontal: bool,
)
    requires
        1 <= g <= 1000,
        0 <= k,
        0 <= fixed <= 1000,
        k <= 1000,
        2 * g * k <= px <= 2 * g * (k + 1),
        walls.len() == zipped.len(),
        forall|j: int| 0 <= j < zipped.len() ==> #[trigger] walls[j] == scale_line(zipped[j], g),
        all_wall_form(zipped),
        forall|j: int|
            0 <= j < zipped.len() ==> (0 <= (#[trigger] zipped[j]).a.x && zipped[j].b.x <= 1000
                && 0 <= zipped[j].a.y && zipped[j].b.y <= 1000 && zipped[j].a.x <= zipped[j].b.x
                && zipped[j].a.y <= zipped[j].b.y),
        (if horizontal {
            covered(zipped, 2 * k + 1, 2 * fixed)
        } else {
            covered(zipped, 2 * fixed, 2 * k + 1)
        }),
    ensures
        (if horizontal {
            covered(walls, px, 2 * g * fixed)
        } else {
            covered(walls, 2 * g * fixed, px)
        }),
{
    if horizontal {
        let j = choose|j: int|
            0 <= j < zipped.len() && covers(#[trigger] zipped[j], 2 * k + 1, 2 * fixed);
        let l = zipped[j];
        assert(wall_form(l));
        assert(l.a.y == l.b.y && 2 * fixed == 2 * l.a.y && betw(2 * k + 1, 2 * l.a.x, 2 * l.b.x));
        assert(l.a.x <= k && k + 1 <= l.b.x);
        assert(walls[j] == scale_line(l, g));
        assert(2 * (l.a.x * g) <= 2 * g * k && 2 * g * (k + 1) <= 2 * (l.b.x * g))
            by (nonlinear_arith)
            requires l.a.x <= k && k + 1 <= l.b.x && g >= 1;
        assert(l.a.y * g == fixed * g);
        assert(2 * (l.a.y * g) == 2 * g * fixed) by (nonlinear_arith)
            requires l.a.y == fixed;
        assert(in_scale_range(l, g)) by {
            lemma_box_scale(l, g);
        }
        assert(covers(walls[j], px, 2 * g * fixed));
    } else {
        let j = choose|j: int|
            0 <= j < zipped.len() && covers(#[trigger] zipped[j], 2 * fixed, 2 * k + 1);
        let l = zipped[j];
        assert(wall_form(l));
        assert(l.a.x == l.b.x && 2 * fixed == 2 * l.a.x && betw(2 * k + 1, 2 * l.a.y, 2 * l.b.y));
        assert(l.a.y <= k && k + 1 <= l.b.y);
        assert(walls[j] == scale_line(l, g));
        assert(2 * (l.a.y * g) <= 2 * g * k && 2 * g * (k + 1) <= 2 * (l.b.y * g))
            by (nonlinear_arith)
            requires l.a.y <= k && k + 1 <= l.b.y && g >= 1;
        assert(2 * (l.a.x * g) == 2 * g * fixed) by (nonlinear_arith)
            requires l.a.x == fixed;
        assert(in_scale_range(l, g)) by {
            lemma_box_scale(l, g);
        }
        assert(covers(walls[j], 2 * g * fixed, px));
    }
}

/// Scaled coordinates of a boxed lattice wall stay within `i64`.
pub open spec fn in_scale_range(l: Line, g: int) -> bool {
    &&& in_range(l.a.x * g)
    &&& in_range(l.a.y * g)
    &&& in_range(l.b.x * g)
    &&& in_range(l.b.y * g)
}

/// Lattice coordinates in the grid box scale without wrapping.
proof fn lemma_box_scale(l: Line, g: int)
    requires
        1 <= g <= 1000,
        -1001 <= l.a.x <= 1001,
        -1001 <= l.a.y <= 1001,
        -1001 <= l.b.x <= 1001,
        -1001 <= l.b.y <= 1001,
    ensures
        in_scale_range(l, g),
{
    assert(-1_001_000 <= l.a.x * g <= 1_001_000) by (nonlinear_arith)
        requires -1001 <= l.a.x <= 1001 && 1 <= g <= 1000;
    assert(-1_001_000 <= l.a.y * g <= 1_001_000) by (nonlinear_arith)
        requires -1001 <= l.a.y <= 1001 && 1 <= g <= 1000;
    assert(-1_001_000 <= l.b.x * g <= 1_001_000) by (nonlinear_arith)
        requires -1001 <= l.b.x <= 1001 && 1 <= g <= 1000;
    assert(-1_001_000 <= l.b.y * g <= 1_001_000) by (nonlinear_arith)
        requires -1001 <= l.b.y <= 1001 && 1 <= g <= 1000;
}

/// `l` with both endpoints scaled by `k`.
pub open spec fn scale_line(l: Line, k: int) -> Line {
    Line {
        a: Point { x: (l.a.x * k) as i64, y: (l.a.y * k) as i64 },
        b: Point { x: (l.b.x * k) as i64, y: (l.b.y * k) as i64 },
    }
}

/// Scaling by a positive factor neither creates nor destroys an
/// endpoint-adjacent collinear pair, as long as the scaled coordinates do
/// not wrap.
proof fn lemma_scale_extends(l1: Line, l2: Line, k: int)
    requires
        1 <= k <= 1000,
        0 <= l1.a.x <= 1000 && 0 <= l1.a.y <= 1000,
        0 <= l1.b.x <= 1000 && 0 <= l1.b.y <= 1000,
        0 <= l2.a.x <= 1000 && 0 <= l2.a.y <= 1000,
        0 <= l2.b.x <= 1000 && 0 <= l2.b.y <= 1000,
    ensures
        crate::geometry::extends_spec(scale_line(l1, k), scale_line(l2, k))
            == crate::geometry::extends_spec(l1, l2),
{
    assert forall|v: int| 0 <= v <= 1000 implies 0 <= #[trigger] (v * k) <= 1_000_000 by {
        assert(0 <= v * k <= 1_000_000) by (nonlinear_arith)
            requires 0 <= v <= 1000 && 1 <= k <= 1000;
    }
    assert(0 <= l1.a.x * k <= 1_000_000);
    assert(0 <= l1.a.y * k <= 1_000_000);
    assert(0 <= l1.b.x * k <= 1_000_000);
    assert(0 <= l1.b.y * k <= 1_000_000);
    assert(0 <= l2.a.x * k <= 1_000_000);
    assert(0 <= l2.a.y * k <= 1_000_000);
    assert(0 <= l2.b.x * k <= 1_000_000);
    assert(0 <= l2.b.y * k <= 1_000_000);
    lemma_scale_eq(l1.a.x as int, l2.a.x as int, k);
    lemma_scale_eq(l1.a.y as int, l2.a.y as int, k);
    lemma_scale_eq(l1.a.x as int, l2.b.x as int, k);
    lemma_scale_eq(l1.a.y as int, l2.b.y as int, k);
    lemma_scale_eq(l1.b.x as int, l2.a.x as int, k);
    lemma_scale_eq(l1.b.y as int, l2.a.y as int, k);
    lemma_scale_eq(l1.b.x as int, l2.b.x as int, k);
    lemma_scale_eq(l1.b.y as int, l2.b.y as int, k);
    lemma_scale_eq(l1.a.x as int, l1.b.x as int, k);
    lemma_scale_eq(l2.a.x as int, l2.b.x as int, k);
}

/// Multiplying by a positive factor is injective.
proof fn lemma_scale_eq(a: int, b: int, k: int)
    requires
        k >= 1,
    ensures
        (a * k == b * k) == (a == b),
{
    assert(a != b ==> a * k != b * k) by (nonlinear_arith)
        requires k >= 1;
}

/// Number of degrees stepped between consecutive rays.
pub open spec fn ray_step(rays: int) -> int {
    360int / rays
}

/// Number of ray directions produced: the multiples of the step below 360.
pub open spec fn ray_count(rays: int) -> int {
    359int / ray_step(rays) + 1
}

/// Direction vector of the ray at `angle` degrees, of the given length:
/// angle 0 points along positive `y`, growing angles turn toward positive
/// `x` first (compass order, `x` from sine and `y` from cosine).
pub open spec fn ray_dir_spec(angle: int, length: int) -> Point {
    Point {
        x: milli_scale(sin_milli(angle), length) as i64,
        y: milli_scale(cos_milli(angle), length) as i64,
    }
}

/// `s / 1000` of `length`, rounded toward zero.
pub open spec fn milli_scale(s: int, length: int) -> int {
    if s >= 0 {
        (s * length) / 1000
    } else {
        -((-s * length) / 1000)
    }
}

/// Scale a milli-unit factor (in `[-1000, 1000]`) onto a nonnegative
/// length.
fn apply_milli(s: i64, length: i64) -> (r: i64)
    requires
        -1000 <= s <= 1000,
        0 <= length <= 100_000_000,
    ensures
        r == milli_scale(s as int, length as int),
        -length <= r <= length,
{
    proof {
        if s >= 0 {
            crate::geometry::lemma_frac_scale_bounds(s as int, 1000, length as int);
        } else {
            crate::geometry::lemma_frac_scale_bounds(-s as int, 1000, length as int);
        }
        assert((s as int) * (length as int) <= 1000 * 100_000_000) by (nonlinear_arith)
            requires -1000 <= s <= 1000 && 0 <= length <= 100_000_000;
        assert((s as int) * (length as int) >= -(1000 * 100_000_000)) by (nonlinear_arith)
            requires -1000 <= s <= 1000 && 0 <= length <= 100_000_000;
        assert((-s as int) * (length as int) <= 1000 * 100_000_000) by (nonlinear_arith)
            requires -1000 <= s <= 1000 && 0 <= length <= 100_000_000;
    }
    if s >= 0 {
        (s * length) / 1000
    } else {
        -((-s * length) / 1000)
    }
}

/// The fixed fan of ray direction vectors: one ray every `360 / rays`
/// degrees starting at angle 0, each of the given length. The angles
/// strictly increase with the index.
pub fn get_ray_directions(rays: usize, length: i64) -> (dirs: Vec<Point>)
    requires
        1 <= rays <= 360,
        0 <= length <= 100_000_000,
    ensures
        dirs.len() == ray_count(rays as int),
        forall|k: int|
            0 <= k < dirs.len() ==> #[trigger] dirs[k] == ray_dir_spec(
                k * ray_step(rays as int),
                length as int,
            ),
        forall|k: int|
            0 <= k < dirs.len() ==> -length <= (#[trigger] dirs[k]).x <= length && -length
                <= dirs[k].y <= length,
{
    let step: usize = 360 / rays;
    proof {
        vstd::arithmetic::div_mod::lemma_div_is_ordered(rays as int, 360, rays as int);
        vstd::arithmetic::div_mod::lemma_div_by_self(rays as int);
        vstd::arithmetic::div_mod::lemma_div_is_ordered_by_denominator(360, 1, rays as int);
        vstd::arithmetic::div_mod::lemma_div_basics(360);
    }
    let mut dirs: Vec<Point> = Vec::new();
    let mut a: usize = 0;
    proof {
        assert(0int * (step as int) == 0) by (nonlinear_arith);
    }
    while a < 360
        invariant
            1 <= step <= 360,
            step == ray_step(rays as int),
            0 <= length <= 100_000_000,
            a == dirs.len() * step,
            a < 360 + step,
            forall|k: int|
                0 <= k < dirs.len() ==> #[trigger] dirs[k] == ray_dir_spec(
                    k * ray_step(rays as int),
                    length as int,
                ),
            forall|k: int|
                0 <= k < dirs.len() ==> -length <= (#[trigger] dirs[k]).x <= length && -length
                    <= dirs[k].y <= length,
        decreases 360 + step - a,
    {
        let s = sin_deg(a as u64);
        let c = cos_deg(a as u64);
        let px = apply_milli(s, length);
        let py = apply_milli(c, length);
        proof {
            assert(dirs@.len() * step == a);
            assert(Point { x: px, y: py } == ray_dir_spec(
                dirs@.len() * ray_step(rays as int),
                length as int,
            ));
        }
        dirs.push(Point::new(px, py));
        a = a + step;
        proof {
            assert((dirs@.len() - 1) * step + step == dirs@.len() * step) by (nonlinear_arith);
        }
    }
    proof {
        let n = dirs@.len() as int;
        let st = ray_step(rays as int);
        assert(n * st >= 360);
        assert(n >= 1) by (nonlinear_arith)
            requires n * st >= 360 && 1 <= st;
        assert((n - 1) * st == n * st - st) by (nonlinear_arith);
        assert((n - 1) * st < 360);
        assert(n - 1 <= 359int / st) by {
            vstd::arithmetic::div_mod::lemma_div_is_ordered((n - 1) * st, 359, st);
            vstd::arithmetic::div_mod::lemma_div_multiples_vanish(n - 1, st);
            assert(((n - 1) * st) / st == (st * (n - 1)) / st);
        }
        assert(359int / st <= n - 1) by {
            if 359int / st >= n {
                vstd::arithmetic::div_mod::lemma_fundamental_div_mod(359, st);
                vstd::arithmetic::div_mod::lemma_mod_bound(359, st);
                assert(359 >= (359int / st) * st) by (nonlinear_arith)
                    requires 359int == st * (359int / st) + 359int % st && 359int % st >= 0;
                assert((359int / st) * st >= n * st) by (nonlinear_arith)
                    requires 359int / st >= n && st >= 1;
            }
        }
        assert(n == 359int / st + 1);
    }
    dirs
}

/// Brute-force nearest hit over the first `n` walls: the intersection
/// closest to `seg.a` by squared distance, the earliest wall winning exact
/// ties.
pub open spec fn nearest_hit_spec(walls: Seq<Line>, seg: Line, n: int) -> Option<Point>
    decreases n,
{
    if n <= 0 {
        None
    } else {
        let prev = nearest_hit_spec(walls, seg, n - 1);
        match intersection_spec(seg, walls[n - 1]) {
            Some(q) => match prev {
                None => Some(q),
                Some(p) => if sdist(seg.a, q) < sdist(seg.a, p) {
                    Some(q)
                } else {
                    Some(p)
                },
            },
            None => prev,
        }
    }
}

/// Brute-force nearest intersection of the probe `seg` with any wall:
/// evaluate the exact intersection against every wall and keep the hit with
/// the smallest squared distance to the probe origin, the first such wall
/// winning ties. `None` exactly when no wall intersects the probe.
pub fn nearest_intersection(walls: &Vec<Line>, seg: &Line) -> (r: Option<Point>)
    requires
        line_in_range(*seg),
        forall|t: int| 0 <= t < walls.len() ==> line_in_range(#[trigger] walls@[t]),
    ensures
        r == nearest_hit_spec(walls@, *seg, walls@.len() as int),
        (match r {
            Some(q) => point_in_range(q) && betw(q.x as int, seg.a.x as int, seg.b.x as int)
                && betw(q.y as int, seg.a.y as int, seg.b.y as int) && (exists|t: int|
                0 <= t < walls@.len() && intersection_spec(*seg, #[trigger] walls@[t]) == Some(q))
                && (forall|t: int|
                0 <= t < walls@.len() ==> (match intersection_spec(*seg, #[trigger] walls@[t]) {
                    Some(q2) => sdist(seg.a, q) <= sdist(seg.a, q2),
                    None => true,
                })),
            None => forall|t: int|
                0 <= t < walls@.len() ==> intersection_spec(*seg, #[trigger] walls@[t]) is None,
        }),
{
    let mut best: Option<Point> = None;
    let mut t: usize = 0;
    while t < walls.len()
        invariant
            t <= walls.len(),
            line_in_range(*seg),
            forall|j: int| 0 <= j < walls.len() ==> line_in_range(#[trigger] walls@[j]),
            best == nearest_hit_spec(walls@, *seg, t as int),
            (match best {
                Some(q) => point_in_range(q) && betw(q.x as int, seg.a.x as int, seg.b.x as int)
                    && betw(q.y as int, seg.a.y as int, seg.b.y as int) && (exists|j: int|
                    0 <= j < t && intersection_spec(*seg, #[trigger] walls@[j]) == Some(q)) && (
                forall|j: int|
                    0 <= j < t ==> (match intersection_spec(*seg, #[trigger] walls@[j]) {
                        Some(q2) => sdist(seg.a, q) <= sdist(seg.a, q2),
                        None => true,
                    })),
                None => forall|j: int|
                    0 <= j < t ==> intersection_spec(*seg, #[trigger] walls@[j]) is None,
            }),
        decreases walls.len() - t,
    {
        let cand = seg.intersection(&walls[t]);
        match cand {
            Some(q) => {
                match best {
                    None => {
                        best = Some(q);
                    },
                    Some(p) => {
                        let dq = q.minus(seg.a).snorm();
                        let dp = p.minus(seg.a).snorm();
                        proof {
                            assert(dq == sdist(seg.a, q));
                            assert(dp == sdist(seg.a, p));
                        }
                        if dq < dp {
                            best = Some(q);
                        }
                    },
                }
            },
            None => {},
        }
        t = t + 1;
    }
    best
}

/// Where movement from `position` toward `desired` ends against the wall
/// set: clamped one unit short of the nearest obstruction, or at `desired`
/// when nothing is in the way.
pub open spec fn resolve_spec(walls: Seq<Line>, position: Point, desired: Point) -> Point {
    match nearest_hit_spec(walls, Line { a: position, b: desired }, walls.len() as int) {
        Some(q) => clamped_step(position, q),
        None => desired,
    }
}

/// Resolve movement against the plain wall set (brute force): move to
/// `desired`, or stop one unit short of the nearest wall intersection on
/// the way.
pub fn resolve_movement(position: Point, desired: Point, walls: &Vec<Line>) -> (r: Point)
    requires
        point_in_range(position),
        point_in_range(desired),
        forall|t: int| 0 <= t < walls.len() ==> line_in_range(#[trigger] walls@[t]),
    ensures
        r == resolve_spec(walls@, position, desired),
        betw(r.x as int, position.x as int, desired.x as int),
        betw(r.y as int, position.y as int, desired.y as int),
        point_in_range(r),
{
    let seg = Line::new(position, desired);
    match nearest_intersection(walls, &seg) {
        Some(q) => clamp_toward(position, q),
        None => desired,
    }
}

/// Rejected configuration, reported before any generation starts.
#[derive(PartialEq, Eq, Structural, Clone, Copy, Debug)]
pub enum ConfigError {
    /// The window holds fewer than two grid cells.
    GridTooCoarse,
    /// A ray count of zero.
    ZeroRays,
    /// A target-proximity threshold divisor of zero.
    ZeroThreshold,
    /// A dropout fraction outside `[0, 1]` or with a zero or oversized
    /// denominator.
    BadDropout,
}

/// The agent's position stays within a frame around the playing field.
pub open spec fn in_play(p: Point) -> bool {
    -100_000_000 <= p.x <= 100_000_000 && -100_000_000 <= p.y <= 100_000_000
}

/// The running game: immutable maze geometry and index, the agent position
/// and target, and the fixed ray fan.
pub struct Game {
    pub position: Point,
    pub target: Point,
    pub walls: Vec<Line>,
    pub grid_size: usize,
    pub grid: Grid,
    pub base_rays: Vec<Point>,
    pub threshold: i64,
}

/// Well-formed game state: a well-formed index whose extents match the
/// walls, all geometry in range, and the agent inside the play frame.
pub open spec fn game_wf(gm: Game) -> bool {
    &&& grid_wf(gm.grid)
    &&& gm.grid.grid_size == gm.grid_size
    &&& in_play(gm.position)
    &&& in_play(gm.target)
    &&& forall|t: int|
        0 <= t < gm.walls.len() ==> world_wall_ok(
            #[trigger] gm.walls@[t],
            gm.grid_size as int,
            gm.grid.width as int,
            gm.grid.height as int,
        )
    &&& 0 <= gm.threshold <= 1000
    &&& forall|k: int|
        0 <= k < gm.base_rays.len() ==> -100_000_000 <= (#[trigger] gm.base_rays@[k]).x
            <= 100_000_000 && -100_000_000 <= gm.base_rays@[k].y <= 100_000_000
}

/// The centre of a uniformly random grid cell.
pub fn get_random_point(grid_size: usize, width: usize, height: usize) -> (r: Point)
    requires
        grid_dims_ok(width as int, height as int),
        1 <= grid_size <= 1000,
    ensures
        (r.x as int) % (grid_size as int) == (grid_size as int) / 2,
        (r.y as int) % (grid_size as int) == (grid_size as int) / 2,
        0 <= (r.x as int) / (grid_size as int) < width as int,
        0 <= (r.y as int) / (grid_size as int) < height as int,
        0 <= r.x <= 1_000_000,
        0 <= r.y <= 1_000_000,
{
    let cx = random_below(width);
    let cy = random_below(height);
    proof {
        assert(0 <= cx * grid_size <= 999 * 1000) by (nonlinear_arith)
            requires 0 <= cx <= 999 && grid_size <= 1000;
        assert(0 <= cy * grid_size <= 999 * 1000) by (nonlinear_arith)
            requires 0 <= cy <= 999 && grid_size <= 1000;
    }
    let rx = (cx * grid_size + grid_size / 2) as i64;
    let ry = (cy * grid_size + grid_size / 2) as i64;
    proof {
        vstd::arithmetic::div_mod::lemma_fundamental_div_mod_converse(
            rx as int,
            grid_size as int,
            cx as int,
            (grid_size as int) / 2,
        );
        vstd::arithmetic::div_mod::lemma_fundamental_div_mod_converse(
            ry as int,
            grid_size as int,
            cy as int,
            (grid_size as int) / 2,
        );
    }
    Point::new(rx, ry)
}

/// The endpoint reported for one ray: the nearest wall intersection along
/// the probe from `pos`, or the ray's full extent when nothing is hit (or
/// when `pos` lies outside the grid).
pub open spec fn ray_endpoint_spec(gr: Grid, pos: Point, ray: Point) -> Point {
    let p2 = Point { x: (pos.x + ray.x) as i64, y: (pos.y + ray.y) as i64 };
    match find_cell_spec(gr, pos) {
        None => p2,
        Some(ci) => match search_spec(
            gr,
            Line { a: pos, b: p2 },
            ci,
            None,
            (gr.width + gr.height + 2) as nat,
        ) {
            Some(q) => q,
            None => p2,
        },
    }
}

/// Where the agent ends a frame that steers from `pos` toward `desired`:
/// unchanged outside the grid, clamped one unit short of the first wall the
/// index finds on the way, else at `desired`.
pub open spec fn move_result_spec(gr: Grid, pos: Point, desired: Point) -> Point {
    match find_cell_spec(gr, pos) {
        None => pos,
        Some(ci) => match search_spec(
            gr,
            Line { a: pos, b: desired },
            ci,
            None,
            (gr.width + gr.height + 2) as nat,
        ) {
            Some(q) => clamped_step(pos, q),
            None => desired,
        },
    }
}

impl Game {
    /// Set up a game: validate the configuration, generate and compress
    /// the maze for a window of `window_width x window_height` world units,
    /// build the spatial index, and place the agent and the target at
    /// random cell centres. The errors are exactly the rejected
    /// configurations: fewer than two cells, zero rays, a zero threshold
    /// divisor, or a dropout fraction outside `[0, 1]`.
    pub fn new(
        window_width: usize,
        window_height: usize,
        grid_size: usize,
        dropout_num: u64,
        dropout_den: u64,
        target_threshold: usize,
        rays: usize,
        ray_length: usize,
    ) -> (r: Result<Game, ConfigError>)
        requires
            1 <= grid_size <= 1000,
            window_width <= 1000 * grid_size,
            window_height <= 1000 * grid_size,
            rays <= 360,
            ray_length <= 100,
        ensures
            (r == Err::<Game, ConfigError>(ConfigError::GridTooCoarse)) == ((window_width as int
                / grid_size as int) * (window_height as int / grid_size as int) < 2),
            !(r == Err::<Game, ConfigError>(ConfigError::GridTooCoarse)) ==> ((r == Err::<
                Game,
                ConfigError,
            >(ConfigError::ZeroRays)) == (rays == 0)),
            !(r == Err::<Game, ConfigError>(ConfigError::GridTooCoarse)) && rays != 0 ==> ((r
                == Err::<Game, ConfigError>(ConfigError::ZeroThreshold)) == (target_threshold
                == 0)),
            !(r == Err::<Game, ConfigError>(ConfigError::GridTooCoarse)) && rays != 0
                && target_threshold != 0 ==> ((r == Err::<Game, ConfigError>(
                ConfigError::BadDropout,
            )) == !(0 < dropout_den <= 1_000_000 && dropout_num <= dropout_den)),
            (match r {
                Ok(gm) => {
                    &&& game_wf(gm)
                    &&& gm.grid.width == window_width / grid_size
                    &&& gm.grid.height == window_height / grid_size
                    &&& (forall|px: int, py: int|
                        on_window_boundary(
                            px,
                            py,
                            (window_width / grid_size) as int * grid_size as int,
                            (window_height / grid_size) as int * grid_size as int,
                        ) ==> covered(gm.walls@, px, py))
                    &&& gm.grid_size == grid_size
                    &&& gm.threshold == grid_size as int / target_threshold as int
                    &&& gm.base_rays.len() == ray_count(rays as int)
                    &&& (forall|k: int|
                        0 <= k < gm.base_rays.len() ==> #[trigger] gm.base_rays@[k]
                            == ray_dir_spec(
                            k * ray_step(rays as int),
                            (grid_size * ray_length) as int,
                        ))
                },
                Err(_) => true,
            }),
    {
        let width = window_width / grid_size;
        let height = window_height / grid_size;
        proof {
            vstd::arithmetic::div_mod::lemma_div_pos_is_pos(window_width as int, grid_size as int);
            vstd::arithmetic::div_mod::lemma_div_pos_is_pos(window_height as int, grid_size as int);
            vstd::arithmetic::div_mod::lemma_div_is_ordered(
                window_width as int,
                1000 * grid_size as int,
                grid_size as int,
            );
            vstd::arithmetic::div_mod::lemma_div_is_ordered(
                window_height as int,
                1000 * grid_size as int,
                grid_size as int,
            );
            vstd::arithmetic::div_mod::lemma_div_multiples_vanish(1000, grid_size as int);
            assert((grid_size as int) * 1000 == 1000 * (grid_size as int));
        }
        proof {
            assert(width * height <= 1000 * 1000) by (nonlinear_arith)
                requires width <= 1000 && height <= 1000;
        }
        if width * height < 2 {
            return Err(ConfigError::GridTooCoarse);
        }
        if rays == 0 {
            return Err(ConfigError::ZeroRays);
        }
        if target_threshold == 0 {
            return Err(ConfigError::ZeroThreshold);
        }
        if !(0 < dropout_den && dropout_den <= 1_000_000 && dropout_num <= dropout_den) {
            return Err(ConfigError::BadDropout);
        }
        proof {
            assert(width >= 1 && height >= 1) by (nonlinear_arith)
                requires width * height >= 2 && width >= 0 && height >= 0;
        }
        let walls = make_walls(grid_size, width, height, dropout_num, dropout_den);
        proof {
            assert(width as int * grid_size as int <= 1_000_000) by (nonlinear_arith)
                requires width <= 1000 && grid_size <= 1000;
            assert(height as int * grid_size as int <= 1_000_000) by (nonlinear_arith)
                requires height <= 1000 && grid_size <= 1000;
            assert forall|t: int|
                0 <= t < walls.len() implies line_in_range(#[trigger] walls@[t]) by {
                assert(world_wall_ok(walls@[t], grid_size as int, width as int, height as int));
            }
        }
        let grid = crate::grid::Grid::new(grid_size, width, height);
        let grid = grid.fill(&walls);
        let position = get_random_point(grid_size, width, height);
        let target = get_random_point(grid_size, width, height);
        proof {
            assert(grid_size * ray_length <= 1000 * 100) by (nonlinear_arith)
                requires grid_size <= 1000 && ray_length <= 100;
        }
        let base_rays = get_ray_directions(rays, (grid_size * ray_length) as i64);
        let threshold = (grid_size / target_threshold) as i64;
        proof {
            assert(threshold <= 1000) by {
                vstd::arithmetic::div_mod::lemma_div_is_ordered_by_denominator(
                    grid_size as int,
                    1,
                    target_threshold as int,
                );
                vstd::arithmetic::div_mod::lemma_div_basics(grid_size as int);
            }
            vstd::arithmetic::div_mod::lemma_div_pos_is_pos(grid_size as int, target_threshold as int);
        }
        let gm = Game { position, target, walls, grid_size, grid, base_rays, threshold };
        proof {
            assert(game_wf(gm));
        }
        Ok(gm)
    }

    /// Advance the agent one frame toward `desired` (the damped steering
    /// point chosen by the caller): move all the way, or stop one world
    /// unit short of the first wall the index finds on the path.
    pub fn update_position(&mut self, desired: Point)
        requires
            game_wf(*old(self)),
            in_play(desired),
        ensures
            game_wf(*final(self)),
            final(self).position == move_result_spec(
                old(self).grid,
                old(self).position,
                desired,
            ),
            final(self).target == old(self).target,
            final(self).walls == old(self).walls,
            final(self).grid == old(self).grid,
            final(self).grid_size == old(self).grid_size,
            final(self).base_rays == old(self).base_rays,
            final(self).threshold == old(self).threshold,
    {
        let seg = Line::new(self.position, desired);
        let found = self.grid.find(&self.position);
        match found {
            None => {},
            Some(ci) => {
                match self.grid.find_intersection(&seg, ci, None) {
                    Some(q) => {
                        self.position = clamp_toward(self.position, q);
                    },
                    None => {
                        self.position = desired;
                    },
                }
            },
        }
    }

    /// The visibility fan: one endpoint per base ray, in the fan's fixed
    /// angular order — the nearest wall intersection along the ray, or the
    /// ray's full extent.
    pub fn get_rays(&self) -> (endpoints: Vec<Point>)
        requires
            game_wf(*self),
        ensures
            endpoints.len() == self.base_rays.len(),
            forall|k: int|
                0 <= k < endpoints.len() ==> #[trigger] endpoints@[k] == ray_endpoint_spec(
                    self.grid,
                    self.position,
                    self.base_rays@[k],
                ),
    {
        let found = self.grid.find(&self.position);
        let mut endpoints: Vec<Point> = Vec::new();
        let n = self.base_rays.len();
        let mut k: usize = 0;
        while k < n
            invariant
                k <= n,
                n == self.base_rays.len(),
                game_wf(*self),
                (match found {
                    Some(ci) => find_cell_spec(*&self.grid, self.position) == Some(ci as int) && ci
                        < self.grid.cells.len(),
                    None => find_cell_spec(*&self.grid, self.position) is None,
                }),
                endpoints.len() == k,
                forall|j: int|
                    0 <= j < k ==> #[trigger] endpoints@[j] == ray_endpoint_spec(
                        self.grid,
                        self.position,
                        self.base_rays@[j],
                    ),
            decreases n - k,
        {
            let ray = self.base_rays[k];
            let p2 = self.position.plus(ray);
            let endpoint = match found {
                None => p2,
                Some(ci) => {
                    let seg = Line::new(self.position, p2);
                    match self.grid.find_intersection(&seg, ci, None) {
                        Some(q) => q,
                        None => p2,
                    }
                },
            };
            endpoints.push(endpoint);
            k = k + 1;
        }
        endpoints
    }

    /// Whether the agent has reached the target: the Euclidean distance
    /// between them is below the threshold, decided exactly on squared
    /// integers.
    pub fn found_target(&self) -> (r: bool)
        requires
            game_wf(*self),
        ensures
            r == (sdist(self.position, self.target) < self.threshold * self.threshold),
    {
        proof {
            assert(0 <= self.threshold * self.threshold <= 1_000_000) by (nonlinear_arith)
                requires 0 <= self.threshold <= 1000;
        }
        let d = self.target.minus(self.position).snorm();
        d < self.threshold * self.threshold
    }
}

} // verus!
