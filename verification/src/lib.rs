//! A metered remote file store: named byte files with splice writes and clamped
//! range reads, fixed-size chunk files with a presence bitmap, and the ledger
//! that settles each mutation's storage footprint against the caller's payment.

pub mod error;
pub mod ledger;
pub mod identity;
pub mod bytefile;
pub mod bridge;
pub mod chunked;
pub mod chunk_store;
