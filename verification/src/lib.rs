//! Verified core of a lattice maze game: exact integer geometry, randomized
//! spanning-tree maze carving with dropout, collinear wall compression, a
//! per-cell spatial index, and the movement / visibility queries built on them.
use vstd::prelude::*;

mod compress;
mod game;
mod geometry;
mod grid;
mod maze;
mod rng;
mod trig;

pub use compress::compress_labyrinth;
pub use game::{
    get_random_point, get_ray_directions, make_walls, nearest_intersection, resolve_movement,
    ConfigError, Game,
};
pub use geometry::{clamp_toward, isqrt, lemma_clamp_never_reaches, Line, Orientation, Point};
pub use grid::{lemma_search_hit_is_wall_hit, Cell, Direction, Grid};
pub use maze::{apply_dropout, build_edges, carve_spanning_tree, make_labyrinth, Edge};
