//! Field-of-view on an integer grid: a breadth-first flood fill that reveals
//! a bounded area or finds the nearest marked cell, and symmetric
//! shadowcasting with an exact distance falloff.

pub mod cast;
pub mod flood;
pub mod fraction;
pub mod geometry;
pub mod light;
pub mod nearest;
pub mod order;
pub mod reach;
pub mod shadow;
pub mod sight;

pub use cast::{compute_fov, is_symmetric, slope};
pub use flood::{find_next, unveil_room};
pub use fraction::{round_ties_down, round_ties_up, Fraction};
pub use light::distance;
pub use shadow::{Kind, Quadrant, Row, Tile};
pub use geometry::{
    add_points, directions, index_of, inside_boundaries, inside_circle, point_struct, Point,
};
