//! The maintenance-command surface: which repair operation to run. The
//! surrounding binary parses its command line into these plain values.

use vstd::prelude::*;

verus! {

/// A maintenance operation on the store.
#[derive(Clone, Copy, PartialEq, Eq, Structural, Debug)]
pub enum Command {
    /// Rebuild the whole ledger from chain data.
    RebuildLedger,
    /// Check the integrity of the WAL records.
    WalIntegrity,
    /// Remove parts of the WAL.
    TrimWal,
}

/// The parsed maintenance arguments.
#[derive(Clone, Copy, PartialEq, Eq, Structural, Debug)]
pub struct Args {
    pub command: Command,
}

} // verus!
