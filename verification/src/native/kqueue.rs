//! The back end on a kernel event queue.
use vstd::prelude::*;

use crate::kqueue::flags;
use crate::kqueue::flags::{EventFilterFlags, EventFlags};
use crate::kqueue::queue;
use crate::kqueue::queue::{timespec, Call, KQueueError, Timespec};
use crate::path::Path;

verus! {

/// What kind of thing an event is about.
#[allow(non_camel_case_types)]
#[derive(Debug, Clone, Copy, PartialEq, Eq, Structural)]
pub enum EventFilter {
    EVFILT_VNODE,
    EVFILT_USER,
}

impl EventFilter {
    /// The kernel's number for a filter.
    pub open spec fn number(self) -> i16 {
        match self {
            EventFilter::EVFILT_VNODE => flags::EVFILT_VNODE,
            EventFilter::EVFILT_USER => flags::EVFILT_USER,
        }
    }

    /// The kernel's number for a filter.
    pub fn code(self) -> (code: i16)
        ensures
            code == self.number(),
            self is EVFILT_VNODE ==> code == -4,
            self is EVFILT_USER ==> code == -10,
    {
        match self {
            EventFilter::EVFILT_VNODE => flags::EVFILT_VNODE,
            EventFilter::EVFILT_USER => flags::EVFILT_USER,
        }
    }
}

/// A change that the back end has seen.
#[derive(Debug, PartialEq, Eq)]
pub enum Event {
    Create(Path),
    Remove(Path),
}

/// A path that is open for reading.
#[derive(Debug, PartialEq, Eq, Structural)]
pub struct NativePath {
    pub fd: i32,
}

impl NativePath {
    /// The path for what opening it has returned. A negative number says that it was not opened,
    /// and is the error.
    pub fn new(fd: i32) -> (path: Result<NativePath, i32>)
        ensures
            fd < 0 ==> path == Err::<NativePath, i32>(fd),
            fd >= 0 ==> path == Ok::<NativePath, i32>(NativePath { fd }),
    {
        if fd < 0 {
            return Err(fd);
        }
        Ok(NativePath { fd })
    }
}

/// An event as the kernel takes and gives it.
#[allow(non_camel_case_types)]
#[derive(Debug, Clone, Copy, PartialEq, Eq, Structural)]
pub struct kevent {
    pub ident: u64,
    pub filter: i16,
    pub flags: EventFlags,
    pub fflags: EventFilterFlags,
    pub data: i64,
    /// An address that the kernel hands back as it got it. Zero stands for no address.
    pub udata: u64,
}

impl kevent {
    /// An event about an open path.
    pub fn new(
        path: &NativePath,
        filter: EventFilter,
        flags: EventFlags,
        fflags: EventFilterFlags,
        data: i64,
        udata: u64,
    ) -> (ev: kevent)
        ensures
            ev == (kevent {
                ident: path.fd as u64,
                filter: filter.number(),
                flags,
                fflags,
                data,
                udata,
            }),
    {
        kevent { ident: path.fd as u64, filter: filter.code(), flags, fflags, data, udata }
    }

    /// An event about nothing, with nothing in it.
    pub fn empty() -> (ev: kevent)
        ensures
            ev == (kevent { ident: 0, filter: 0, flags: 0, fflags: 0, data: 0, udata: 0 }),
    {
        kevent { ident: 0, filter: 0, flags: 0, fflags: 0, data: 0, udata: 0 }
    }
}

/// A queue of kernel events.
#[derive(Debug, PartialEq, Eq, Structural)]
pub struct KQueue {
    pub fd: i32,
}

impl KQueue {
    /// The queue for what the kernel has returned when asked for one.
    pub fn new(fd: i32) -> (queue: Result<KQueue, KQueueError>)
        ensures
            fd < 0 ==> queue == Err::<KQueue, KQueueError>(KQueueError::UnableToCreateKQueue),
            fd >= 0 ==> queue == Ok::<KQueue, KQueueError>(KQueue { fd }),
    {
        if fd < 0 {
            return Err(KQueueError::UnableToCreateKQueue);
        }
        Ok(KQueue { fd })
    }

    /// The call that hands the requests `input` to the queue, with room for `output` events.
    pub fn process(&self, input: &[kevent], output: usize, timeout: Timespec) -> (call: Call)
        ensures
            call == queue::call_of(self.fd, input@.len() as usize, output, Some(timeout)),
            call.kq == self.fd,
            input@.len() <= i32::MAX ==> call.nchanges as int == input@.len(),
            output <= i32::MAX ==> call.nevents as int == output as int,
            call.timeout == Some(timespec { tv_sec: timeout.sec, tv_nsec: timeout.nsec as i64 }),
    {
        #[verifier::truncate]
        let nchanges: i32 = input.len() as i32;
        #[verifier::truncate]
        let nevents: i32 = output as i32;
        let timeout = timespec { tv_sec: timeout.sec, tv_nsec: timeout.nsec as i64 };
        Call { kq: self.fd, nchanges, nevents, timeout: Some(timeout) }
    }
}

/// A watcher that has a place to watch from, and watches nothing.
#[derive(Debug, PartialEq, Eq, Structural)]
pub struct Watcher {}

impl Watcher {
    /// A watcher on a queue, with what opening its directory has returned. A negative number says
    /// that the directory was not opened, and is the error.
    pub fn new(_queue: KQueue, fd: i32) -> (watcher: Result<Watcher, i32>)
        ensures
            fd < 0 ==> watcher == Err::<Watcher, i32>(fd),
            fd >= 0 ==> watcher == Ok::<Watcher, i32>(Watcher {  }),
    {
        if fd < 0 {
            return Err(fd);
        }
        Ok(Watcher {  })
    }

    /// Accepts every path.
    pub fn watch(&mut self, _path: Path) -> (done: Result<(), KQueueError>)
        ensures
            done is Ok,
            *final(self) == *old(self),
    {
        Ok(())
    }
}

} // verus!
