//! An escrow marketplace for non-fungible assets priced in fungible tokens:
//! an indexed listing store and the transitions that list, buy and withdraw.
pub mod contract;
pub mod error;
pub mod msg;
pub mod package;
pub mod state;
pub mod text;
