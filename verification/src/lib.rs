//! Budget-limited context tree weighting with integer fixed-point arithmetic.
pub mod fixed;
pub mod decimal;
pub mod ctw;
pub mod comparator;
pub mod sa_frontier;
pub mod d2ctw;
pub mod npy;
