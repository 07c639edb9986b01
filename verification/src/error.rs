//! What can be wrong with the data that the ledger and the topology hand over.

use vstd::prelude::*;

verus! {

/// Topology and ledger do not fit together.
#[derive(Clone, Copy, Debug, PartialEq, Eq, Structural)]
pub enum IntegrityError {
    /// The locator is not three decimal numbers joined by `x`, or one of
    /// them is too large.
    MalformedLocator,
    /// The block has no transaction at the locator's index.
    TransactionOutOfRange,
    /// The transaction has no output at the index asked for.
    OutputOutOfRange,
    /// The output pays to no address.
    MissingAddress,
    /// The transactions handed over are not the sources of the inputs.
    SourceMismatch,
    /// The fee does not fit in 64 bits.
    FeeOutOfRange,
}

} // verus!
