use vstd::prelude::*;

verus! {

/// The failures that the clustering core reports.
#[derive(Clone, Copy, Debug, PartialEq, Eq, Structural)]
pub enum CoreError {
    ClusterIndexingError,
    EmptyNetworkError,
    InternalNetworkIndexingError,
    ParameterRangeError,
    UnsafeInducementError,
    QueueError,
}

} // verus!
