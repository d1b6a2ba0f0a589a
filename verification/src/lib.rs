//! Approximate dynamic time warping of two equal-length signals by
//! multi-resolution refinement, with machine-checked contracts.

pub mod band;
pub mod downsample;
pub mod downsample_fns;
pub mod dtw_solver;
pub mod grid;
pub mod laws;
pub mod loss_band;
pub mod loss_fns;
pub mod loss_map;
pub mod model;
pub mod path;
pub mod path_band;
pub mod path_map;
pub mod plugin;
pub mod stack_vec;

pub use downsample::Downsample;
pub use dtw_solver::DtwSolver;
pub use path::{Move, Path, PathPoint};
pub use stack_vec::{StackVec, StackVecError, StackVecIterator};
