//! A small poll ledger: polls with named options, one vote per voter and poll,
//! per-option tallies, and closing by the poll's creator.
pub mod assoc;
pub mod laws;
pub mod registry;
pub mod tally;

pub use registry::{DataKey, Poll, VotingContract, VotingError};
