use vstd::prelude::*;

verus! {

/// A failure at a checked graph, algorithm, or resource boundary.
#[derive(Debug)]
pub enum Error {
    InvalidGraph(String),
    InvalidOption(String),
    InvalidNode(u64),
    MissingIncoming,
    Cancelled,
    MemoryLimit { requested: usize, available: usize },
    Overflow,
}

} // verus!
