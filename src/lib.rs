//! A flock of agents that steer against one another, with a pairwise
//! displacement cache rebuilt at every step.

pub mod flock;

pub use flock::Flock;
