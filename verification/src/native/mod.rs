//! Back ends that stand closer to the system than the watchers do.
use vstd::prelude::*;

pub mod fallback;
pub mod kqueue;

verus! {

/// What a back end has seen.
#[derive(Debug, Clone, Copy, PartialEq, Eq, Structural)]
pub enum Event {
    /// Something, but it cannot say what.
    Unknown,
}

} // verus!
