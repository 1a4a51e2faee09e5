//! Fixed point numbers and the axis-aligned regions of the complex plane built from them.
pub mod domain;
pub mod fixed;
pub mod square;
pub mod window;
