//! The lock-free discipline: each cown keeps the tail of a linked queue.

pub mod cown;
pub mod atomicity;
pub mod behavior;
pub mod coupling;
pub mod driving;
pub mod handover;
pub mod laws;
pub mod lists;
pub mod memory;
pub mod reports;
pub mod request;
pub mod runtime;
