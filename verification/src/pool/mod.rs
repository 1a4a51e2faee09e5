//! The work that keeps the tree in step with what is looked at: refining where the sample window
//! looks, sampling, retiring and freeing where it no longer does, and drawing.
pub mod frame;
pub mod worker;
