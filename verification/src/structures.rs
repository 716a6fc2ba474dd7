use vstd::prelude::*;

verus! {

/// A half-open range of sample indices, `init..end`.
#[derive(Clone, Copy, Default, Debug)]
pub struct SampleRange {
    pub init: usize,
    pub end: usize,
}

} // verus!
