use vstd::prelude::*;

verus! {

/// Starts the profiler; without a profiling backend there is nothing to do.
pub fn init() {
}

/// Marks the end of a frame for the profiler; without a profiling backend
/// there is nothing to do.
pub fn next_frame() {
}

} // verus!
