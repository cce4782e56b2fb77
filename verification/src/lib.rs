//! A Bitcoin block-header relay: a light-client ledger that ingests block
//! headers submitted by untrusted parties, validates each against consensus
//! rules (proof-of-work, difficulty retargeting, chain linkage), and maintains
//! a best-known chain together with competing forks, promoting a fork to
//! canonical status once it is far enough ahead of the current best chain.

use vstd::prelude::*;

pub mod bytes;
pub mod codec;
pub mod errors;
pub mod laws;
pub mod relay;
pub mod retarget;
pub mod store;
pub mod u256;

verus! {

/// Chain id reserved for the main (canonical) chain; 0 means "no chain".
pub const MAIN_CHAIN_ID: u32 = 1;

/// Number of blocks in one difficulty period.
pub const DIFFICULTY_ADJUSTMENT_INTERVAL: u32 = 2016;

/// Intended duration of one difficulty period, in seconds (two weeks).
pub const RETARGET_PERIOD: u32 = 1209600;

/// Lead (in blocks) over the best height at which a fork is promoted.
pub const CONFIRMATIONS: u32 = 6;

} // verus!
