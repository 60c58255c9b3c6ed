//! A Rice (Golomb power-of-two) codec for sequences of unsigned integers,
//! with a percentile heuristic that picks the Rice parameter.

pub mod bitstream;
pub mod format;
pub mod coder;
pub mod estimate;

pub use coder::{create_rice_coder, RiceCoder, RiceError};
pub use estimate::estimate_optimal_k;
