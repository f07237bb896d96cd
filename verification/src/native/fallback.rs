//! The back end for systems without any better: it knows only that time has passed.
use vstd::prelude::*;

use crate::native::Event;
use crate::path::PathSet;

verus! {

/// A clock that ticks once in every period.
#[derive(Debug, Clone, Copy, PartialEq, Eq, Structural)]
pub struct Watcher {
    /// The period in milliseconds.
    pub period: u64,
}

#[derive(Debug, PartialEq, Eq, Structural)]
pub struct Backend {
    pub watcher: Watcher,
}

impl Backend {
    /// A back end that ticks once in every `period` milliseconds.
    pub fn new(period: u64) -> (backend: Backend)
        ensures
            backend == (Backend { watcher: Watcher { period } }),
    {
        Backend { watcher: Watcher { period } }
    }

    /// Takes no notice of the paths: a tick says nothing about any of them.
    pub fn register(&mut self, _paths: PathSet)
        ensures
            *final(self) == *old(self),
    {
    }

    /// What a tick tells.
    pub fn transform(&self, _ev: ()) -> (event: Event)
        ensures
            event == Event::Unknown,
    {
        Event::Unknown
    }
}

} // verus!
