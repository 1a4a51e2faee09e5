//! The quadtree of color samples, stored in an arena of nodes.
pub mod handle;
pub mod moment;
pub mod rgb;
pub mod quadtree;
