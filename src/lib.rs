//! Discrete core of a particle simulation: the sparse spatial hash that
//! groups particles into grid cells, the candidate and pair schedules that
//! the collision and gravity passes walk, the adaptive cell-size controller,
//! the per-tick bookkeeping and the work division of the gravity worker pool.
pub mod arena;
pub mod grid;
pub mod pool;
pub mod tick;
pub mod tuning;
