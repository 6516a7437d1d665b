use vstd::prelude::*;

verus! {

/// The kinds of failure that the series' maintenance and queries can meet.
#[derive(Clone, Copy, Debug, PartialEq, Eq, Structural)]
pub enum TrendError {
    /// The store could not be reached.
    StoreUnavailable,
    /// The store refused a query.
    StoreQueryFailed,
    /// A window whose beginning lies after its end.
    InvalidRange,
    /// The price source could not be reached.
    UpstreamUnreachable,
    /// The price source answered with something that does not parse.
    UpstreamMalformed,
    /// The bulk history file could not be read.
    BootstrapFileUnreadable,
    /// One line of the bulk history file does not parse.
    BootstrapLineMalformed,
}

} // verus!
