//! The locking discipline: each cown keeps the tail of its queue behind a lock,
//! and whoever joins the queue registers at the request in front.

pub mod atomicity;
pub mod behaviour;
pub mod coupling;
pub mod cown;
pub mod driving;
pub mod handover;
pub mod laws;
pub mod lists;
pub mod memory;
pub mod reports;
pub mod request;
pub mod runtime;
