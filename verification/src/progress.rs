//! What the steps of a behaviour come to.
use vstd::prelude::*;

verus! {

/// What a step came to.
#[derive(Clone, Copy, Debug, PartialEq, Eq, Structural)]
pub enum Progress {
    /// The step was made; the program goes on.
    Advanced,
    /// Nothing has changed: somebody else has to move first.
    Waiting,
    /// The step counted the last resolution of this behaviour, which is to be
    /// started.
    Ready(u64),
    /// The behaviour is scheduled, and has resolutions outstanding.
    Pending,
    /// The behaviour has given back all its cowns and is gone.
    Finished,
}

} // verus!
