use vstd::prelude::*;

verus! {

/// A fatal condition met while building the road network.
///
/// Construction is all-or-nothing: the first error aborts the run and no
/// partial graph is handed out.
#[derive(Clone, Copy, PartialEq, Eq, Structural, Debug)]
pub enum BuildError {
    /// A line matched one of the recognized patterns but a captured numeric
    /// field could not be read as a number of the expected kind (or its value
    /// is too large for the representation used here).
    MalformedNumber,
    /// An edge was requested between endpoints of which `id` has no stored
    /// coordinate.
    DanglingReference { id: i64 },
}

} // verus!
