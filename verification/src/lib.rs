//! A quadtree of color samples of the complex plane, addressed by fixed point coordinates.
pub mod complex;
pub mod pool;
pub mod sample;
pub mod tree;
