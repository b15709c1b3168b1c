//! Neutral landscape models: synthetic two-dimensional fields used as
//! stand-ins for real spatial heterogeneity.
//!
//! A landscape is a grid of cells, `Vec<Vec<T>>`, with all rows of one
//! length. Every routine is generic over the cell type `T` and takes its
//! arithmetic from the operator traits of the standard library, so the same
//! verified code serves any numeric type. What only a floating-point type
//! can give (draws of the unit interval, roots, powers, waves) enters as a
//! function of the caller's.
//!
//! A landscape asked for with no rows or no columns has no rows.
pub mod array;
pub mod cell;
pub mod diamond;
pub mod distance;
pub mod hill;
pub mod mesh;
pub mod nlm;
pub mod operation;
pub mod rng;

pub use hill::hill_grow;
pub use nlm::{
    distance_gradient, edge_gradient, midpoint_displacement, planar_gradient, random, random_arr,
    random_element, wave_gradient,
};
