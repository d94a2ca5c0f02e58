//! Content-aware image narrowing: an edge-energy estimate, a minimum-cost vertical seam search
//! over it, and the removal of one cell per row along that seam, repeated until the target width
//! is reached.
pub mod kernel;
pub mod energy;
pub mod seam;
pub mod carve;
pub mod resize;
pub mod rank;
pub mod args;
pub mod emit;
pub mod timer;
pub mod util;
