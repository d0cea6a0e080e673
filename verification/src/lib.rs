//! Behaviour-oriented concurrency: the scheduling core.
//!
//! A *cown* protects a value. A *behaviour* is a routine together with the list
//! of cowns that it needs; it runs once it has acquired all of them, and then
//! gives them back. Behaviours that share a cown run one after the other, in the
//! order in which they were scheduled; no two of them ever wait for each other
//! in a circle.
//!
//! [`protocol`], [`moves`] and [`laws`] state the coordination protocol and what
//! it guarantees. [`mcs`] and [`locked`] are two executable disciplines that
//! follow it. In both, all memory that threads share is held by a runtime, and
//! each public function makes one step, or as many as can be made while nobody
//! else moves. Whoever drives a runtime decides which thread makes which step,
//! and when: the guarantees hold whatever the decisions are.

pub mod laws;
pub mod locked;
pub mod mcs;
pub mod measure;
pub mod moves;
pub mod progress;
pub mod protocol;
pub mod resource;
pub mod sorting;

pub use mcs::behavior::run_when;
pub use mcs::cown::CownPtr;
