//! File system watching: a kernel event queue watcher, a polling watcher, and the parts they share.
//!
//! Every type and function here works on plain values. The program around the library opens
//! files, walks directories, makes the system calls and owns the threads; it hands what it found
//! to the state machines of this crate and carries out the actions they answer with.
pub mod event;
pub mod kqueue;
pub mod native;
pub mod normal;
pub mod path;
pub mod report;
pub mod stat;
pub mod watcher;

pub use crate::kqueue::Watcher;
