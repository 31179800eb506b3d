//! Staking ledger and settlement state machine of a binary prediction market.
//!
//! Users stake value on a YES/NO outcome of a time-boxed call, an authorized
//! oracle reports the outcome once, and stakers withdraw once afterwards.
//! The hosting runtime (caller identity, block time, attached value) is passed
//! in as a plain [`Context`] value.

pub mod amount;
pub mod types;
pub mod registry;
pub mod outcome;
pub mod payout;
pub mod deploy;

pub use amount::{Amount, Price};
pub use types::{Address, Context};
pub use registry::{CallCreated, CallRegistry, RegistryError, StakeAdded};
pub use outcome::{OutcomeError, OutcomeManager, OutcomeSubmitted, PayoutWithdrawn};
pub use payout::payout_amount;
pub use deploy::BackItDeployScript;
