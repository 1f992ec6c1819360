//! Descriptions of path arithmetic operations and their results.

use vstd::prelude::*;

verus! {

/// Description of an arithmetic operation to perform on a bezier path
#[verifier::reject_recursive_types(P)]
pub enum PathCombine<P> {
    /// Sets the result to a particular path
    Path(Vec<P>),
    /// Sets the result to a path with its interior points removed
    RemoveInteriorPoints(Vec<P>),
    /// Adds a series of paths
    Add(Vec<PathCombine<P>>),
    /// Subtracts a series of paths (from the first path)
    Subtract(Vec<PathCombine<P>>),
    /// Intersects a series a paths (with the first path)
    Intersect(Vec<PathCombine<P>>),
}

/// The result of a path cut operation
pub struct PathIntersection<P> {
    /// The path that was intersecting between the two paths
    pub intersecting_path: Vec<P>,
    /// The path that was outside of the 'cut' path for the two input paths
    pub exterior_paths: [Vec<P>; 2],
}

} // verus!
