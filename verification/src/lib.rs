//! A recurring-payment ("stream") ledger.
//!
//! Each account may register a bounded list of outgoing payment obligations,
//! each naming a target account and a fixed per-tick spend rate. On every
//! tick the settlement engine moves funds from source to target for every
//! registered stream, automatically retiring any stream whose source can no
//! longer afford it.

pub mod keyed;
pub mod laws;
pub mod ledger;
pub mod pallet;
pub mod settlement;
pub mod types;

pub use ledger::Ledger;
pub use pallet::Pallet;
pub use types::Config;
pub use types::Error;
pub use types::Event;
pub use types::Stream;
pub use types::SurvivalPolicy;
pub use types::TickReport;
pub use types::TransferError;
