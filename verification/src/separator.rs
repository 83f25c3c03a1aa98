use vstd::prelude::*;

verus! {

/// A detected chunk boundary: the offset at which a chunk ends, and the value
/// of the rolling hash at that offset.
#[derive(Clone, Copy, Debug, PartialEq, Eq, Structural)]
pub struct Separator {
    pub index: u64,
    pub hash: u64,
}

} // verus!
