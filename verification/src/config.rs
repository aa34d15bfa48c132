use vstd::prelude::*;

verus! {

/// Tuning constants of the excerpt projector, fixed for the lifetime of one
/// engine so that every recomputation uses the same window.
///
/// `context_lines` is the number of rows of surrounding context added before
/// and after a group's primary range.  `merge_adjacency` is the largest
/// number of rows that may separate two context ranges while they are still
/// merged into one excerpt: `0` merges only overlapping or directly adjacent
/// ranges.
#[derive(Clone, Copy, PartialEq, Eq, Structural, Debug)]
pub struct ProjectionConfig {
    pub context_lines: u32,
    pub merge_adjacency: u32,
}

impl ProjectionConfig {
    pub fn new(context_lines: u32, merge_adjacency: u32) -> (c: ProjectionConfig)
        ensures
            c == (ProjectionConfig { context_lines, merge_adjacency }),
    {
        ProjectionConfig { context_lines, merge_adjacency }
    }
}

} // verus!
