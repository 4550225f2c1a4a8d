//! The convex hull of a finite set of lattice points in the plane, computed by
//! quickhull and verified against an exact description of its result.
//!
//! [`quickhull`] takes points with integer coordinates and returns the edges
//! of their hull as directed lines. All arithmetic is exact, so the side of a
//! line on which a point lies is never in doubt, and what is proved of the
//! result holds of what is computed:
//!
//! - [`hull`] says which edges are returned, and in which order;
//! - [`convexity`] shows that no input point lies outside any edge;
//! - [`walk`] shows that the edges form a closed walk;
//! - [`vertices`] shows that the hull of a hull's vertices is that hull;
//! - [`reordering`] shows the same for the vertices in any order, where no
//!   three of them lie on one line;
//! - [`scaling`] shows that scaling the input scales the hull;
//! - [`degenerate`] gives the hull of points on one line.

pub mod convexity;
pub mod degenerate;
pub mod extreme;
pub mod geometry;
pub mod hull;
pub mod orientation;
pub mod reordering;
pub mod scaling;
pub mod sequences;
pub mod vertices;
pub mod walk;

pub use crate::extreme::quickhull_init;
pub use crate::geometry::{
    line_dist, line_right, triangle_member, triangle_prot, Distance, Line, Point,
};
pub use crate::hull::{furthest_from, points_right_of, quickhull, quickhull_recursive};
