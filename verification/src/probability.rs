use vstd::prelude::*;

verus! {

/// An error raised while building or using a probability value.
#[derive(Debug, Clone)]
pub struct ProbabilityError(pub String);

} // verus!
