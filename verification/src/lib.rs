//! A verified accounting engine for a carbon-credit token ledger.
//!
//! Custodians request issuance of token editions backed by an external
//! verification registry; a governing authority approves or denies each
//! request; approved editions are held as fungible per-edition balances
//! that can be transferred by edition, by issuance year, or as an
//! all-or-nothing bundle; balances can be permanently retired with an
//! auditable report.
//!
//! Caller authentication, event emission and persistence are the
//! surrounding dispatch layer's business: every operation here takes the
//! caller identity and the current block stamp as plain parameters and
//! returns a structured outcome.

pub mod custodian;
pub mod error;
pub mod laws;
pub mod retirement;
pub mod table;
pub mod token;

pub use crate::error::Message as OperationError;
pub use crate::retirement::Report as RetirementReport;
pub use crate::token::{TokenBalanceDetail, TokenEdition};

use vstd::prelude::*;

verus! {

/// An account identifier, as handed in by the dispatch layer.
pub type AccountId = u64;

/// A block number stamp, supplied by the environment through the caller.
pub type BlockNumber = u32;

/// A block timestamp stamp, supplied by the environment through the caller.
pub type Timestamp = u64;

/// An amount of carbon-credit units.
pub type CarbonUnit = u64;

/// The beneficiary account of a mint request.
pub type MintBeneficiaryAccount = AccountId;

/// An external registry reference correlating a mint request to an
/// off-ledger verification record.
pub type RegistryId = String;

/// A retirement report identifier: monotonically increasing, never reused.
pub type RetirementId = u64;

/// A token edition identifier: monotonically increasing, never reused.
pub type TokenId = u32;

/// An issuance year.
pub type Year = u16;

/// A list of retirement reports.
pub type RetirementReports = Vec<RetirementReport>;

/// A list of per-edition balance details.
pub type TokenBalances = Vec<TokenBalanceDetail>;

/// A list of (edition, amount) pairs.
pub type TokenEditions = Vec<TokenEdition>;

/// The reserved all-zero account that permanently sinks retired balance.
pub open spec fn blackhole_address() -> AccountId {
    0
}

/// Returns the reserved sentinel account that receives retired balance.
pub fn get_blackhole_address() -> (r: AccountId)
    ensures
        r == blackhole_address(),
{
    0
}

} // verus!
