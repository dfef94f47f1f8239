//! A delegated-proof-of-stake staking core.
//!
//! The crate tracks candidates and the stake delegated to them, elects a
//! bounded active validator set at each epoch boundary, accrues block rewards
//! against a frozen epoch snapshot, applies slashing, and manages time-locked
//! deregistration and undelegation requests.  All state lives in an explicit
//! [`pallet::Pallet`] value; the host drives it once per block and per
//! transaction, and everything the host may rely on is stated in the
//! operations' contracts.
//!
//! The layout follows the data: [`store`] and [`delegs`] hold the verified
//! containers, [`pallet`] the state and its balance ledger, [`registry`] the
//! candidate and delegation operations, [`delay`] the two-phase requests,
//! [`election`] the validator election and reward accrual, and [`laws`] the
//! crate-wide lemmas.

use vstd::prelude::*;

pub mod delay;
pub mod delegs;
pub mod election;
pub mod laws;
pub mod pallet;
pub mod registry;
pub mod store;
pub mod types;

verus! {

/// Account identifier used throughout the staking core.
pub type AccountId = u64;

/// Balance amount used for bonds, delegations and rewards.
pub type Balance = u128;

/// Block height used for epochs and delayed actions.
pub type BlockNumber = u64;

} // verus!
