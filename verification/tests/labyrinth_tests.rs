use std::collections::{HashMap, HashSet, VecDeque};

use labyrinth::{
    apply_dropout, build_edges, carve_spanning_tree, compress_labyrinth, get_random_point,
    get_ray_directions, make_labyrinth, make_walls, nearest_intersection, resolve_movement,
    ConfigError, Game, Line, Orientation, Point,
};

fn pt(x: i64, y: i64) -> Point {
    Point::new(x, y)
}

fn ln(ax: i64, ay: i64, bx: i64, by: i64) -> Line {
    Line::new(pt(ax, ay), pt(bx, by))
}

fn wall_key(l: &Line) -> (i64, i64, i64, i64) {
    let a = (l.a.x, l.a.y);
    let b = (l.b.x, l.b.y);
    if a <= b {
        (a.0, a.1, b.0, b.1)
    } else {
        (b.0, b.1, a.0, a.1)
    }
}

/// Open inner borders of the carved maze, as a set of dual-graph edges
/// between cell coordinates.
fn open_passages(edges: &[labyrinth::Edge], width: usize, height: usize) -> Vec<((usize, usize), (usize, usize))> {
    let alive: HashSet<(i64, i64, i64, i64)> = edges
        .iter()
        .filter(|e| e.alive)
        .map(|e| wall_key(&e.seg))
        .collect();
    let mut passages = Vec::new();
    for x in 0..width {
        for y in 0..height {
            // border with the east neighbour: segment x+1, y..y+1
            if x + 1 < width {
                let seg = ln((x + 1) as i64, y as i64, (x + 1) as i64, (y + 1) as i64);
                if !alive.contains(&wall_key(&seg)) {
                    passages.push(((x, y), (x + 1, y)));
                }
            }
            // border with the south neighbour: segment x..x+1, y+1
            if y + 1 < height {
                let seg = ln(x as i64, (y + 1) as i64, (x + 1) as i64, (y + 1) as i64);
                if !alive.contains(&wall_key(&seg)) {
                    passages.push(((x, y), (x, y + 1)));
                }
            }
        }
    }
    passages
}

fn reachable_cells(
    passages: &[((usize, usize), (usize, usize))],
    width: usize,
    height: usize,
) -> usize {
    let mut adj: HashMap<(usize, usize), Vec<(usize, usize)>> = HashMap::new();
    for &(a, b) in passages {
        adj.entry(a).or_default().push(b);
        adj.entry(b).or_default().push(a);
    }
    let mut seen = HashSet::new();
    let mut queue = VecDeque::new();
    seen.insert((0usize, 0usize));
    queue.push_back((0usize, 0usize));
    while let Some(c) = queue.pop_front() {
        if let Some(ns) = adj.get(&c) {
            for &n in ns {
                if n.0 < width && n.1 < height && seen.insert(n) {
                    queue.push_back(n);
                }
            }
        }
    }
    seen.len()
}

#[test]
fn connectivity_spanning_tree() {
    // Dropout 0: the open inner borders form a spanning tree of the cells:
    // every cell reachable, and exactly cells - 1 open inner borders.
    for (w, h) in [(4usize, 4usize), (8, 6), (12, 5)] {
        let mut edges = build_edges(w, h);
        let done = carve_spanning_tree(&mut edges, w, h);
        assert!(done, "carving must merge everything into one area");
        let passages = open_passages(&edges, w, h);
        assert_eq!(passages.len(), w * h - 1, "a tree has cells - 1 edges");
        assert_eq!(reachable_cells(&passages, w, h), w * h, "all cells reachable");
    }
}

#[test]
fn dropout_monotonicity_exact_count() {
    // After carving, dropout removes exactly floor(survivors * num / den)
    // more inner walls.
    let (w, h) = (10usize, 10usize);
    let mut edges = build_edges(w, h);
    let done = carve_spanning_tree(&mut edges, w, h);
    assert!(done);
    let survivors = edges.iter().filter(|e| e.alive && e.right.is_some()).count();
    for (num, den) in [(0u64, 1u64), (1, 2), (9, 10), (1, 1)] {
        let mut ed = edges.clone();
        apply_dropout(&mut ed, num, den);
        let after = ed.iter().filter(|e| e.alive && e.right.is_some()).count();
        let expect = survivors - (survivors * num as usize) / den as usize;
        assert_eq!(after, expect);
    }
}

#[test]
fn dropout_full_keeps_boundary() {
    // Dropout 1 removes every removable inner wall but never a boundary wall.
    let (w, h) = (6usize, 6usize);
    let mut edges = build_edges(w, h);
    let done = carve_spanning_tree(&mut edges, w, h);
    assert!(done);
    apply_dropout(&mut edges, 1, 1);
    assert_eq!(edges.iter().filter(|e| e.alive && e.right.is_some()).count(), 0);
    for e in edges.iter().filter(|e| e.right.is_none()) {
        assert!(e.alive, "boundary edges always survive");
    }
    // the full perimeter is present
    let boundary = edges.iter().filter(|e| e.right.is_none()).count();
    assert_eq!(boundary, 2 * w + 2 * h);
}

#[test]
fn maze_stays_connected_with_dropout() {
    // Connectivity holds for any dropout: passages only ever open.
    for (num, den) in [(0u64, 1u64), (1, 2), (1, 1)] {
        let (w, h) = (7usize, 9usize);
        let walls = make_labyrinth(w, h, num, den);
        let wall_set: HashSet<(i64, i64, i64, i64)> = walls.iter().map(wall_key).collect();
        let mut passages = Vec::new();
        for x in 0..w {
            for y in 0..h {
                if x + 1 < w {
                    let seg = ln((x + 1) as i64, y as i64, (x + 1) as i64, (y + 1) as i64);
                    if !wall_set.contains(&wall_key(&seg)) {
                        passages.push(((x, y), (x + 1, y)));
                    }
                }
                if y + 1 < h {
                    let seg = ln(x as i64, (y + 1) as i64, (x + 1) as i64, (y + 1) as i64);
                    if !wall_set.contains(&wall_key(&seg)) {
                        passages.push(((x, y), (x, y + 1)));
                    }
                }
            }
        }
        assert_eq!(reachable_cells(&passages, w, h), w * h, "dropout {}/{}", num, den);
    }
}

#[test]
fn compression_idempotence() {
    // Re-running the compressor on its own output yields the same set.
    let maze = make_labyrinth(8, 8, 1, 10);
    let once = compress_labyrinth(maze);
    let twice = compress_labyrinth(once.clone());
    let mut k1: Vec<_> = once.iter().map(wall_key).collect();
    let mut k2: Vec<_> = twice.iter().map(wall_key).collect();
    k1.sort();
    k2.sort();
    assert_eq!(k1, k2);
}

#[test]
fn compression_coverage() {
    // The compressed walls cover exactly the same points as the raw walls:
    // equal total length, and every raw wall lies inside a compressed wall
    // of the same orientation.
    let maze = make_labyrinth(8, 8, 0, 1);
    let compressed = compress_labyrinth(maze.clone());
    let len = |l: &Line| (l.b.x - l.a.x).abs() + (l.b.y - l.a.y).abs();
    let total_raw: i64 = maze.iter().map(len).sum();
    let total_zip: i64 = compressed.iter().map(len).sum();
    assert_eq!(total_raw, total_zip, "no geometry lost or doubled");
    for raw in &maze {
        let inside = compressed.iter().any(|c| {
            c.orientation() == raw.orientation()
                && c.a.x <= raw.a.x.min(raw.b.x)
                && raw.a.x.max(raw.b.x) <= c.b.x
                && c.a.y <= raw.a.y.min(raw.b.y)
                && raw.a.y.max(raw.b.y) <= c.b.y
        });
        assert!(inside, "raw wall {:?} not covered", raw);
    }
}

#[test]
fn compression_merges_straight_runs() {
    let walls = vec![ln(0, 0, 1, 0), ln(1, 0, 2, 0), ln(2, 0, 3, 0)];
    let out = compress_labyrinth(walls);
    assert_eq!(out.len(), 1);
    assert_eq!(wall_key(&out[0]), (0, 0, 3, 0));
}

#[test]
fn compression_keeps_corners_apart() {
    // A corner (shared endpoint, different orientation) must not merge.
    let walls = vec![ln(0, 0, 1, 0), ln(1, 0, 1, 1)];
    let out = compress_labyrinth(walls);
    assert_eq!(out.len(), 2);
}

#[test]
fn intersection_literal_crossing() {
    let l1 = ln(0, 0, 10, 0);
    let l2 = ln(5, -5, 5, 5);
    let p = l1.intersection(&l2).expect("segments cross");
    assert_eq!((p.x, p.y), (5, 0));
}

#[test]
fn intersection_parallel_none() {
    let l1 = ln(0, 0, 10, 0);
    let l2 = ln(0, 1, 10, 1);
    assert!(l1.intersection(&l2).is_none());
    assert!(!l1.intersects(&l2));
}

#[test]
fn intersection_degenerate_none() {
    // A zero-length probe has a zero denominator and reports no
    // intersection rather than dividing by zero.
    let probe = ln(3, 3, 3, 3);
    let wall = ln(0, 0, 10, 0);
    assert!(probe.intersection(&wall).is_none());
}

#[test]
fn movement_clamp_literal() {
    // A wall at x = 10 spanning y in [0, 20]: moving from (5,5) toward
    // (15,5) stops at x = 9, one unit short of the wall.
    let walls = vec![ln(10, 0, 10, 20)];
    let r = resolve_movement(pt(5, 5), pt(15, 5), &walls);
    assert_eq!((r.x, r.y), (9, 5));
}

#[test]
fn movement_unobstructed() {
    let walls = vec![ln(10, 0, 10, 20)];
    let r = resolve_movement(pt(5, 5), pt(8, 5), &walls);
    assert_eq!((r.x, r.y), (8, 5));
}

#[test]
fn movement_never_reaches_wall() {
    let walls = vec![ln(10, 0, 10, 20)];
    for (dx, dy) in [(15, 5), (15, 9), (15, 2), (100, 5)] {
        let r = resolve_movement(pt(5, 5), pt(dx, dy), &walls);
        assert!(r.x < 10, "stopped at {:?}, at or beyond the wall", (r.x, r.y));
    }
}

#[test]
fn ray_count_and_order() {
    // 360 rays: exactly 360 direction vectors, in strictly increasing
    // angular order starting at angle 0 (pointing along +y).
    let dirs = get_ray_directions(360, 100_000);
    assert_eq!(dirs.len(), 360);
    assert_eq!((dirs[0].x, dirs[0].y), (0, 100_000));
    let mut last = -1.0f64;
    for d in &dirs {
        let mut ang = (d.x as f64).atan2(d.y as f64);
        if ang < 0.0 {
            ang += 2.0 * std::f64::consts::PI;
        }
        assert!(ang > last, "angles must strictly increase");
        last = ang;
    }
}

#[test]
fn ray_counts_divide_evenly() {
    for rays in [1usize, 2, 4, 8, 36, 90, 180, 360] {
        let dirs = get_ray_directions(rays, 1000);
        assert_eq!(dirs.len(), rays, "rays={}", rays);
    }
}

#[test]
fn game_rejects_bad_config() {
    // Fewer than two cells.
    assert_eq!(
        Game::new(100, 100, 100, 1, 100, 3, 360, 4).err(),
        Some(ConfigError::GridTooCoarse)
    );
    // Zero rays.
    assert_eq!(
        Game::new(1200, 800, 100, 1, 100, 3, 0, 4).err(),
        Some(ConfigError::ZeroRays)
    );
    // Zero threshold divisor.
    assert_eq!(
        Game::new(1200, 800, 100, 1, 100, 0, 360, 4).err(),
        Some(ConfigError::ZeroThreshold)
    );
    // Dropout above one.
    assert_eq!(
        Game::new(1200, 800, 100, 2, 1, 3, 360, 4).err(),
        Some(ConfigError::BadDropout)
    );
}

#[test]
fn game_setup_dimensions() {
    let g = Game::new(1200, 800, 50, 1, 100, 3, 360, 4).expect("valid configuration");
    assert_eq!(g.grid.width, 24);
    assert_eq!(g.grid.height, 16);
    assert_eq!(g.grid_size, 50);
    assert_eq!(g.threshold, 50 / 3);
    assert_eq!(g.base_rays.len(), 360);
    // position and target sit at cell centres inside the window
    for p in [g.position, g.target] {
        assert!(p.x >= 0 && p.x < 1200);
        assert!(p.y >= 0 && p.y < 800);
        assert_eq!(p.x.rem_euclid(50), 25);
        assert_eq!(p.y.rem_euclid(50), 25);
    }
}

#[test]
fn random_points_land_on_cell_centres() {
    for _ in 0..50 {
        let p = get_random_point(50, 24, 16);
        assert!(p.x >= 0 && p.x < 24 * 50);
        assert!(p.y >= 0 && p.y < 16 * 50);
        assert_eq!(p.x.rem_euclid(50), 25);
        assert_eq!(p.y.rem_euclid(50), 25);
    }
}

#[test]
fn walls_enclose_window() {
    // The perimeter of the window is always walled: probes pushed outward
    // from inside the maze never escape without meeting a wall.
    let walls = make_walls(50, 24, 16, 1, 100);
    for w in &walls {
        assert!(w.a.x >= 0 && w.b.x <= 1200);
        assert!(w.a.y >= 0 && w.b.y <= 800);
    }
    // the four corner-to-corner perimeter runs are covered
    let covered = |seg: Line| {
        walls.iter().any(|c| {
            c.orientation() == seg.orientation()
                && c.a.x <= seg.a.x
                && seg.b.x <= c.b.x
                && c.a.y <= seg.a.y
                && seg.b.y <= c.b.y
        })
    };
    for x in 0..24 {
        assert!(covered(ln(x * 50, 0, (x + 1) * 50, 0)));
        assert!(covered(ln(x * 50, 800, (x + 1) * 50, 800)));
    }
    for y in 0..16 {
        assert!(covered(ln(0, y * 50, 0, (y + 1) * 50)));
        assert!(covered(ln(1200, y * 50, 1200, (y + 1) * 50)));
    }
}

#[test]
fn index_and_brute_force_agree() {
    // The indexed nearest-intersection and the brute-force scan agree on
    // probe segments in general position.
    let game = Game::new(1200, 800, 50, 1, 100, 3, 360, 4).expect("valid configuration");
    let pos = game.position;
    let cell = game.grid.find(&pos).expect("position inside the grid");
    // direction vectors chosen so the probe line passes through no lattice
    // corner anywhere near the window
    let dirs = [
        (137i64, 41i64),
        (-137, 41),
        (137, -41),
        (-137, -41),
        (41, 137),
        (-41, 137),
        (41, -137),
        (-41, -137),
    ];
    for (dx, dy) in dirs {
        let probe = Line::new(pos, pt(pos.x + dx, pos.y + dy));
        let indexed = game.grid.find_intersection(&probe, cell, None);
        let brute = nearest_intersection(&game.walls, &probe);
        match (indexed, brute) {
            (None, None) => {}
            (Some(a), Some(b)) => {
                assert_eq!((a.x, a.y), (b.x, b.y), "probe {:?}", (dx, dy));
            }
            (a, b) => panic!("indexed {:?} vs brute {:?} for probe {:?}", a, b, (dx, dy)),
        }
    }
}

#[test]
fn update_position_moves_and_clamps() {
    let mut game = Game::new(1200, 800, 50, 0, 1, 3, 360, 4).expect("valid configuration");
    let start = game.position;
    // a small unobstructed step stays inside the cell and lands exactly
    let step = pt(start.x + 3, start.y + 2);
    game.update_position(step);
    assert_eq!((game.position.x, game.position.y), (step.x, step.y));
    // pushing far east repeatedly never crosses a wall segment: x keeps to
    // the window
    for _ in 0..100 {
        let desired = pt(game.position.x + 30, game.position.y);
        game.update_position(desired);
        assert!(game.position.x < 1200);
    }
}

#[test]
fn found_target_threshold() {
    let mut game = Game::new(1200, 800, 50, 0, 1, 3, 360, 4).expect("valid configuration");
    game.position = pt(100, 100);
    game.target = pt(100, 100 + game.threshold - 1);
    assert!(game.found_target());
    game.target = pt(100, 100 + game.threshold);
    assert!(!game.found_target());
}

#[test]
fn rays_end_on_walls_or_full_length() {
    let game = Game::new(1200, 800, 50, 1, 100, 3, 360, 4).expect("valid configuration");
    let rays = game.get_rays();
    assert_eq!(rays.len(), 360);
    let max_len = 50.0 * 4.0;
    for r in &rays {
        let dx = (r.x - game.position.x) as f64;
        let dy = (r.y - game.position.y) as f64;
        let d = (dx * dx + dy * dy).sqrt();
        assert!(d <= max_len + 2.0, "ray endpoint beyond its full extent");
    }
}

#[test]
fn geometry_primitives() {
    let p = pt(3, 4);
    assert_eq!(p.snorm(), 25);
    assert_eq!(p.norm(), 5);
    assert_eq!(pt(0, 0).distance(pt(3, 4)), 5);
    assert_eq!(pt(1, 1).distance(pt(4, 4)), 4); // floor of 3*sqrt(2)
    assert_eq!(pt(2, 3).dot(pt(4, 5)), 23);
    assert_eq!(pt(2, 3).cross(pt(4, 5)), -2);
    assert!(matches!(ln(1, 0, 1, 5).orientation(), Orientation::Horizontal));
    assert!(matches!(ln(0, 2, 7, 2).orientation(), Orientation::Vertical));
    assert!(ln(0, 0, 1, 0).extends(&ln(1, 0, 2, 0)));
    assert!(!ln(0, 0, 1, 0).extends(&ln(1, 0, 1, 1)));
    assert!(ln(0, 0, 5, 0).contains(&ln(2, 0, 3, 0)));
    assert!(!ln(0, 0, 5, 0).contains(&ln(2, 0, 6, 0)));
}

#[test]
fn isqrt_values() {
    for (n, r) in [(0i64, 0i64), (1, 1), (3, 1), (4, 2), (8, 2), (9, 3), (99, 9), (100, 10)] {
        assert_eq!(labyrinth::isqrt(n), r);
    }
    assert_eq!(labyrinth::isqrt(i64::MAX), 3_037_000_499);
}
