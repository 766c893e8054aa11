//! An interval-algebra engine.

pub mod atomic;
pub mod bound;
pub mod laws;
pub mod render;
pub mod set;

pub use atomic::AtomicInterval;
pub use bound::Bound;
pub use set::IntervalSet;
