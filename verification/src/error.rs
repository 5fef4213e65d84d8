use vstd::prelude::*;

verus! {

/// The error kinds that the dictionary reports.
///
/// `Config` covers unrecognized or out-of-range configuration values,
/// `Size` an input exceeding the 32-bit limits of the storage format,
/// `Bound` a precondition violation on an index, `Range` a public call
/// with an id or offset outside the valid range, `State` a query against
/// an unbuilt index, and `Code` a broken internal invariant.
#[derive(Clone, Copy, Debug, PartialEq, Eq, Structural)]
pub enum Error {
    Config,
    Size,
    Bound,
    Range,
    State,
    Code,
}

} // verus!
