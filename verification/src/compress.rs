//! Wall compression: merging collinear, endpoint-adjacent wall segments
//! into maximal straight runs.
//!
//! The compressor repeatedly pops a wall from the working set; if some
//! remaining wall extends it (shared endpoint, same orientation class), the
//! two are replaced by their coordinate-wise hull, otherwise the popped wall
//! is final. The output admits no further merge, and the union of points
//! covered by the walls is exactly preserved.
use vstd::prelude::*;

use crate::geometry::{betw, extends_spec, orientation_spec, Line, Point};

verus! {

/// Axis-aligned, nondegenerate wall segment stored with its endpoints in
/// lexicographic order. All maze walls have this shape; the compressor is
/// specified only for such input.
pub open spec fn wall_form(l: Line) -> bool {
    (l.a.x == l.b.x || l.a.y == l.b.y) && l.a != l.b && lex_le(l.a, l.b)
}

/// Every element of `s` is a well-formed wall.
pub open spec fn all_wall_form(s: Seq<Line>) -> bool {
    forall|i: int| 0 <= i < s.len() ==> wall_form(#[trigger] s[i])
}

/// The point `(px, py)`, in doubled (half-unit) coordinates, lies on the
/// axis-aligned segment `l`. Doubling makes the sampling fine enough that
/// two unions of integer-endpoint walls cover the same points exactly when
/// the predicates agree.
pub open spec fn covers(l: Line, px: int, py: int) -> bool {
    (l.a.x == l.b.x && px == 2 * l.a.x && betw(py, 2 * l.a.y, 2 * l.b.y)) || (l.a.y == l.b.y && py
        == 2 * l.a.y && betw(px, 2 * l.a.x, 2 * l.b.x))
}

/// Some wall of `s` covers the point.
pub open spec fn covered(s: Seq<Line>, px: int, py: int) -> bool {
    exists|i: int| 0 <= i < s.len() && covers(#[trigger] s[i], px, py)
}

/// No wall of `s` extends another: no further merge is possible.
pub open spec fn pairwise_non_extending(s: Seq<Line>) -> bool {
    forall|i: int, j: int|
        0 <= i < s.len() && 0 <= j < s.len() && i != j ==> !#[trigger] extends_spec(s[i], s[j])
}

/// Lexicographic order on points: by `x`, then by `y`.
pub open spec fn lex_le(p: Point, q: Point) -> bool {
    p.x < q.x || (p.x == q.x && p.y <= q.y)
}

/// The lexicographically smaller of two points.
pub open spec fn lex_min(p: Point, q: Point) -> Point {
    if lex_le(p, q) {
        p
    } else {
        q
    }
}

/// The lexicographically larger of two points.
pub open spec fn lex_max(p: Point, q: Point) -> Point {
    if lex_le(p, q) {
        q
    } else {
        p
    }
}

/// Hull of two extending walls: the segment from the smallest to the
/// largest of the four endpoints.
pub open spec fn merged_spec(w1: Line, w2: Line) -> Line {
    Line {
        a: lex_min(lex_min(w1.a, w1.b), lex_min(w2.a, w2.b)),
        b: lex_max(lex_max(w1.a, w1.b), lex_max(w2.a, w2.b)),
    }
}

/// Decide the lexicographic order of two points.
fn point_le(p: Point, q: Point) -> (r: bool)
    ensures
        r == lex_le(p, q),
{
    p.x < q.x || (p.x == q.x && p.y <= q.y)
}

/// Merge two extending walls into the single wall spanning both. The result
/// covers exactly the union of the two inputs, keeps their orientation
/// class, and both its endpoints come from the inputs' endpoints.
fn merge_walls(w1: &Line, w2: &Line) -> (m: Line)
    requires
        wall_form(*w1),
        wall_form(*w2),
        extends_spec(*w1, *w2),
    ensures
        m == merged_spec(*w1, *w2),
        wall_form(m),
        orientation_spec(m) == orientation_spec(*w1),
        lex_le(m.a, m.b),
        forall|px: int, py: int|
            #[trigger] covers(m, px, py) == (covers(*w1, px, py) || covers(*w2, px, py)),
        m.a == w1.a || m.a == w1.b || m.a == w2.a || m.a == w2.b,
        m.b == w1.a || m.b == w1.b || m.b == w2.a || m.b == w2.b,
{
    let lo1 = if point_le(w1.a, w1.b) {
        w1.a
    } else {
        w1.b
    };
    let hi1 = if point_le(w1.a, w1.b) {
        w1.b
    } else {
        w1.a
    };
    let lo2 = if point_le(w2.a, w2.b) {
        w2.a
    } else {
        w2.b
    };
    let hi2 = if point_le(w2.a, w2.b) {
        w2.b
    } else {
        w2.a
    };
    let lo = if point_le(lo1, lo2) {
        lo1
    } else {
        lo2
    };
    let hi = if point_le(hi1, hi2) {
        hi2
    } else {
        hi1
    };
    let m = Line { a: lo, b: hi };
    proof {
        assert(m == merged_spec(*w1, *w2));
        assert forall|px: int, py: int|
            #[trigger] covers(m, px, py) == (covers(*w1, px, py) || covers(*w2, px, py)) by {
            if w1.a.x == w1.b.x {
                assert(w2.a.x == w2.b.x);
                assert(w1.a.x == w2.a.x);
            } else {
                assert(w1.a.y == w1.b.y);
                assert(w2.a.y == w2.b.y);
                assert(w1.a.y == w2.a.y);
            }
        }
    }
    m
}

/// Adding an element to a wall set adds exactly its cover.
proof fn lemma_covered_push(s: Seq<Line>, e: Line, px: int, py: int)
    ensures
        covered(s.push(e), px, py) == (covered(s, px, py) || covers(e, px, py)),
{
    let t = s.push(e);
    if covered(t, px, py) {
        let i = choose|i: int| 0 <= i < t.len() && covers(#[trigger] t[i], px, py);
        if i < s.len() {
            assert(covers(s[i], px, py));
        } else {
            assert(covers(e, px, py));
        }
    }
    if covered(s, px, py) {
        let i = choose|i: int| 0 <= i < s.len() && covers(#[trigger] s[i], px, py);
        assert(covers(t[i], px, py));
    }
    if covers(e, px, py) {
        assert(covers(t[s.len() as int], px, py));
    }
}

/// Removing the last element removes exactly its cover.
proof fn lemma_covered_drop_last(s: Seq<Line>, px: int, py: int)
    requires
        s.len() > 0,
    ensures
        covered(s, px, py) == (covered(s.drop_last(), px, py) || covers(s.last(), px, py)),
{
    let d = s.drop_last();
    if covered(s, px, py) {
        let i = choose|i: int| 0 <= i < s.len() && covers(#[trigger] s[i], px, py);
        if i < d.len() {
            assert(covers(d[i], px, py));
        } else {
            assert(covers(s.last(), px, py));
        }
    }
    if covered(d, px, py) {
        let i = choose|i: int| 0 <= i < d.len() && covers(#[trigger] d[i], px, py);
        assert(covers(s[i], px, py));
    }
    if covers(s.last(), px, py) {
        assert(covers(s[s.len() - 1], px, py));
    }
}

/// A swap-remove of element `i` removes exactly its cover.
proof fn lemma_covered_swap_remove(s: Seq<Line>, i: int, px: int, py: int)
    requires
        0 <= i < s.len(),
    ensures
        covered(s, px, py) == (covered(s.update(i, s.last()).drop_last(), px, py) || covers(
            s[i],
            px,
            py,
        )),
{
    let t = s.update(i, s.last()).drop_last();
    if covered(s, px, py) {
        let j = choose|j: int| 0 <= j < s.len() && covers(#[trigger] s[j], px, py);
        if j == i {
            assert(covers(s[i], px, py));
        } else if j == s.len() - 1 {
            if i == s.len() - 1 {
                assert(covers(s[i], px, py));
            } else {
                assert(t[i] == s.last());
                assert(covers(t[i], px, py));
            }
        } else {
            assert(t[j] == s[j]);
            assert(covers(t[j], px, py));
        }
    }
    if covered(t, px, py) {
        let j = choose|j: int| 0 <= j < t.len() && covers(#[trigger] t[j], px, py);
        if j == i {
            assert(covers(s[s.len() - 1], px, py));
        } else {
            assert(covers(s[j], px, py));
        }
    }
    if covers(s[i], px, py) {
        assert(covers(s[i], px, py));
    }
}

/// First remaining wall that extends `wall`, if any.
fn find_extender(walls: &Vec<Line>, wall: &Line) -> (r: Option<usize>)
    ensures
        (match r {
            Some(idx) => idx < walls.len() && extends_spec(walls[idx as int], *wall),
            None => forall|j: int|
                0 <= j < walls.len() ==> !extends_spec(#[trigger] walls[j], *wall),
        }),
{
    let mut j: usize = 0;
    while j < walls.len()
        invariant
            j <= walls.len(),
            forall|t: int| 0 <= t < j ==> !extends_spec(#[trigger] walls@[t], *wall),
        decreases walls.len() - j,
    {
        if walls[j].extends(wall) {
            return Some(j);
        }
        j = j + 1;
    }
    None
}

/// Compress the wall set into maximal straight runs. The result admits no
/// further merge; the set of points covered by the walls is exactly the set
/// covered by the input; and an input that already admits no merge comes
/// back as the same set of walls.
pub fn compress_labyrinth(labyrinth: Vec<Line>) -> (zipped: Vec<Line>)
    requires
        all_wall_form(labyrinth@),
    ensures
        all_wall_form(zipped@),
        pairwise_non_extending(zipped@),
        forall|px: int, py: int|
            #[trigger] covered(zipped@, px, py) == covered(labyrinth@, px, py),
        pairwise_non_extending(labyrinth@) ==> zipped@.len() == labyrinth@.len() && (forall|
            l: Line,
        |
            labyrinth@.contains(l) == zipped@.contains(l)),
{
    let ghost input = labyrinth@;
    let mut work = labyrinth;
    let mut zipped: Vec<Line> = Vec::new();

    while work.len() > 0
        invariant
            all_wall_form(work@),
            all_wall_form(zipped@),
            pairwise_non_extending(zipped@),
            all_wall_form(input),
            forall|i: int, j: int|
                0 <= i < work@.len() && 0 <= j < zipped@.len() ==> !#[trigger] extends_spec(
                    work@[i],
                    zipped@[j],
                ),
            forall|px: int, py: int|
                (covered(work@, px, py) || covered(zipped@, px, py)) == #[trigger] covered(
                    input,
                    px,
                    py,
                ),
            pairwise_non_extending(input) ==> work@ == input.take(work@.len() as int)
                && work@.len() + zipped@.len() == input.len() && (forall|t: int|
                0 <= t < zipped@.len() ==> #[trigger] zipped@[t] == input[input.len() - 1 - t]),
        decreases work.len(),
    {
        let ghost work0 = work@;
        let wall = match work.pop() {
            Some(wl) => wl,
            None => {
                proof {
                    assert(false);
                }
                Line { a: Point { x: 0, y: 0 }, b: Point { x: 0, y: 0 } }
            },
        };
        proof {
            assert(work@ =~= work0.drop_last());
        }
        match find_extender(&work, &wall) {
            Some(idx) => {
                let ghost work1 = work@;
                let wall2 = work.swap_remove(idx);
                let ghost work2 = work@;
                let merged = merge_walls(&wall, &wall2);
                work.push(merged);
                proof {
                    if pairwise_non_extending(input) {
                        assert(work1 == input.take(work1.len() as int));
                        assert(work1[idx as int] == input[idx as int]);
                        assert(wall == input[work0.len() - 1]);
                        assert(extends_spec(input[idx as int], input[work0.len() - 1]));
                        assert(false);
                    }
                    assert forall|i: int, j: int|
                        0 <= i < work@.len() && 0 <= j < zipped@.len()
                            implies !extends_spec(work@[i], zipped@[j]) by {
                        if i < work@.len() - 1 {
                            if i == idx {
                                assert(work@[i] == work1.last());
                            } else {
                                assert(work@[i] == work1[i]);
                            }
                        } else {
                            assert(work@[i] == merged);
                            if extends_spec(merged, zipped@[j]) {
                                assert(merged.a == wall.a || merged.a == wall.b || merged.a
                                    == wall2.a || merged.a == wall2.b);
                                assert(extends_spec(wall, zipped@[j]) || extends_spec(
                                    wall2,
                                    zipped@[j],
                                ));
                            }
                        }
                    }
                    assert forall|px: int, py: int|
                        (covered(work@, px, py) || covered(zipped@, px, py)) == covered(
                            input,
                            px,
                            py,
                        ) by {
                        lemma_covered_drop_last(work0, px, py);
                        lemma_covered_swap_remove(work1, idx as int, px, py);
                        lemma_covered_push(work2, merged, px, py);
                    }
                }
            },
            None => {
                let ghost zipped0 = zipped@;
                zipped.push(wall);
                proof {
                    assert forall|i: int, j: int|
                        0 <= i < work@.len() && 0 <= j < zipped@.len()
                            implies !extends_spec(work@[i], zipped@[j]) by {
                        if j < zipped0.len() {
                            assert(work0[i] == work@[i]);
                            assert(!extends_spec(work0[i], zipped0[j]));
                        } else {
                            assert(zipped@[j] == wall);
                        }
                    }
                    assert forall|i: int, j: int|
                        0 <= i < zipped@.len() && 0 <= j < zipped@.len() && i != j
                            implies !extends_spec(zipped@[i], zipped@[j]) by {
                        if i < zipped0.len() && j < zipped0.len() {
                        } else if i == zipped0.len() {
                            assert(zipped@[i] == wall);
                            assert(!extends_spec(work0[work0.len() - 1], zipped0[j]));
                        } else {
                            assert(zipped@[j] == wall);
                            assert(!extends_spec(work0[work0.len() - 1], zipped0[i]));
                        }
                    }
                    assert forall|px: int, py: int|
                        (covered(work@, px, py) || covered(zipped@, px, py)) == covered(
                            input,
                            px,
                            py,
                        ) by {
                        lemma_covered_drop_last(work0, px, py);
                        lemma_covered_push(zipped0, wall, px, py);
                    }
                    if pairwise_non_extending(input) {
                        assert(work@ =~= input.take(work@.len() as int));
                    }
                }
            },
        }
    }
    proof {
        if pairwise_non_extending(input) {
            assert forall|l: Line| input.contains(l) == zipped@.contains(l) by {
                if input.contains(l) {
                    let t = choose|t: int| 0 <= t < input.len() && input[t] == l;
                    assert(zipped@[input.len() - 1 - t] == l);
                }
                if zipped@.contains(l) {
                    let t = choose|t: int| 0 <= t < zipped@.len() && zipped@[t] == l;
                    assert(input[input.len() - 1 - t] == l);
                }
            }
        }
    }
    zipped
}

} // verus!
