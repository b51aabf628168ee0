//! The resolved scan inputs that a strategy is built from.
use vstd::prelude::*;

verus! {

/// Whether ports are probed in ascending or in random order.
#[derive(Clone, Copy, Debug, PartialEq, Eq, Structural)]
pub enum ScanOrder {
    Serial,
    Random,
}

/// Closed port intervals `(start, end)`, in the order they were given.
#[derive(Debug)]
pub struct PortRange {
    pub ranges: Vec<(u16, u16)>,
}

} // verus!
