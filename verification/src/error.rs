//! The failures an operation can report.

use vstd::prelude::*;

verus! {

/// Why an operation was refused. A refused operation changes nothing.
#[derive(Clone, Copy, Debug, PartialEq, Eq, Structural)]
pub enum ContractError {
    /// The account has no player record.
    NotRegistered,
    /// The caller was not authorized to act for the account.
    Unauthorized,
    /// A counter of the player would leave its value range.
    Overflow,
}

} // verus!
