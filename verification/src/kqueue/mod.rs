//! The watcher on a kernel event queue.
pub mod flags;
pub mod internal;
pub mod kernel;
pub mod laws;
pub mod queue;
pub mod steps;
pub mod watcher;

pub use crate::event::Event;
pub use self::queue::{FileHandler, KQueue, KQueueError};
pub use self::watcher::Watcher;
