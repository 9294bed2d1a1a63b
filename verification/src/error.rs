//! The flat error taxonomy of the ledger: one kind per rejected condition.

use vstd::prelude::*;

verus! {

/// Every failure an operation can report. All errors are returned, never
/// thrown; `BlockchainCorrupted` alone signals an internal invariant breach
/// rather than an ordinary rejection.
#[derive(Copy, Clone, Debug, PartialEq, Eq, Structural)]
pub enum Message {
    /// An invariant of the ledger was found already violated.
    BlockchainCorrupted,
    /// A transfer or retirement of zero units was requested.
    CannotTransferZeroCarbonUnit,
    /// The account is already admitted as a custodian.
    CustodianAlreadyRegistered,
    /// The account is not admitted as a custodian.
    CustodianNotFound,
    /// The paying account holds less than the requested amount.
    InsufficientCarbonUnit,
    /// No retirement report exists under the given identifier.
    RetirementReportNotFound,
    /// Reserved; no current operation produces it.
    TokenAlreadyMinted,
    /// A mint request for the registry reference is already pending.
    TokenMintRequestAlreadyPending,
    /// No pending mint request exists for the registry reference.
    TokenMintRequestNotFound,
    /// No such token edition, or no edition for the given year.
    TokenNotFound,
    /// Produced by the dispatch layer when the caller lacks the capability.
    Unauthorized,
}

} // verus!
