//! Settlement core for multi-party, multi-denomination transfers.
//!
//! Given a snapshot of account balances, a catalog of denomination fee
//! definitions, and a proposed transfer, `calculate_balance_changes` either
//! returns the exact signed balance delta for every affected account or
//! rejects the transfer with a precise reason.
#![verifier::loop_isolation(false)]

pub mod laws;
pub mod model;
pub mod seqs;
pub mod settle;
pub mod types;

pub use settle::calculate_balance_changes;
pub use types::balance;
pub use types::coin;
pub use types::denom_definition;
pub use types::Balance;
pub use types::Coin;
pub use types::DenomDefinition;
pub use types::MultiSend;
pub use types::Rate;
pub use types::TransferError;
pub use types::RATE_SCALE;
