//! Splitting a directory inventory into size-balanced chunks, and the
//! naming and outcome rules shared by the split and rebuild paths.

pub mod chunks;
pub mod layout;
pub mod versioned;
