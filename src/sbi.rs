use vstd::prelude::*;

verus! {

/// What a supervisor binary interface call hands back: an error code and a
/// value.
pub struct SBIReturn {
    pub error: usize,
    pub value: usize,
}

} // verus!
