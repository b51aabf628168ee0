//! Port ordering for a scanner: an explicit list, an ascending sweep over
//! ranges, or a pseudo-random sweep that visits every port of each range once.
pub mod input;
pub mod port_strategy;
pub mod range_walk;
mod rng;
