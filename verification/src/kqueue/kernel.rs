//! Kernel events.
use vstd::prelude::*;

use crate::kqueue::flags::{
    EventFilter, EventFilterFlags, EventFlags, EVFILT_USER, EVFILT_VNODE, EV_ADD, EV_CLEAR,
    NOTE_DELETE, NOTE_RENAME, NOTE_WRITE,
};

verus! {

/// An event as the kernel takes and gives it: on the way in a request to watch something, on the
/// way out the news of it.
#[allow(non_camel_case_types)]
#[derive(Debug, Clone, Copy, PartialEq, Eq, Structural)]
pub struct kevent {
    /// What the event is about: for `EVFILT_VNODE` a file descriptor.
    pub ident: u64,
    pub filter: EventFilter,
    pub flags: EventFlags,
    pub fflags: EventFilterFlags,
    pub data: i64,
    /// An address that the kernel hands back as it got it. Zero stands for no address.
    pub udata: u64,
}

/// The descriptor that an event with this `ident` is about: its low 32 bits.
pub open spec fn descriptor_of(ident: u64) -> i32 {
    ident as i32
}

/// The `ident` of a descriptor.
pub open spec fn ident_of(fd: i32) -> u64 {
    fd as u64
}

/// The request to hear of writing to, deleting and renaming what `fd` stands for.
pub open spec fn vnode_request(fd: i32) -> kevent {
    kevent {
        ident: ident_of(fd),
        filter: EVFILT_VNODE,
        flags: EV_ADD | EV_CLEAR,
        fflags: NOTE_DELETE | NOTE_WRITE | NOTE_RENAME,
        data: 0,
        udata: 0,
    }
}

impl kevent {
    /// An event without data.
    pub fn new(
        ident: u64,
        filter: EventFilter,
        flags: EventFlags,
        fflags: EventFilterFlags,
    ) -> (ev: kevent)
        ensures
            ev == (kevent { ident, filter, flags, fflags, data: 0, udata: 0 }),
    {
        kevent::raw(ident, filter, flags, fflags, 0, 0)
    }

    /// An event about nothing, to fill a buffer with.
    pub fn invalid() -> (ev: kevent)
        ensures
            ev == (kevent {
                ident: 0,
                filter: EVFILT_USER,
                flags: 0,
                fflags: 0,
                data: 0,
                udata: 0,
            }),
    {
        kevent::new(0, EVFILT_USER, 0, 0)
    }

    /// An event with each of its parts given.
    pub fn raw(
        ident: u64,
        filter: EventFilter,
        flags: EventFlags,
        fflags: EventFilterFlags,
        data: i64,
        udata: u64,
    ) -> (ev: kevent)
        ensures
            ev == (kevent { ident, filter, flags, fflags, data, udata }),
    {
        kevent { ident, filter, flags, fflags, data, udata }
    }

    /// The request to hear of writing to, deleting and renaming what `fd` stands for.
    pub fn watching(fd: i32) -> (ev: kevent)
        ensures
            ev == vnode_request(fd),
    {
        kevent::new(
            fd as u64,
            EVFILT_VNODE,
            EV_ADD | EV_CLEAR,
            NOTE_DELETE | NOTE_WRITE | NOTE_RENAME,
        )
    }

    /// The descriptor that the event is about.
    pub fn descriptor(&self) -> (fd: i32)
        ensures
            fd == descriptor_of(self.ident),
    {
        #[verifier::truncate]
        let fd: i32 = self.ident as i32;
        fd
    }
}

/// A descriptor and its `ident` are the same number, for every descriptor that a file can have; and
/// of any `ident` the low bits alone count.
pub proof fn law_ident_is_the_number(fd: i32, ident: u64)
    ensures
        fd >= 0 ==> ident_of(fd) as int == fd as int,
        ident <= i32::MAX ==> descriptor_of(ident) as int == ident as int,
        descriptor_of(ident) == descriptor_of(ident & 0xffff_ffff),
{
    assert(ident <= 0x7fff_ffff ==> (ident as i32) as int == ident as int) by (bit_vector);
    assert(ident as i32 == (ident & 0xffff_ffff) as i32) by (bit_vector);
}

/// Whatever the descriptor is, the same is asked of the kernel: to add the request, to forget what
/// it has told, and to tell of writing, deleting and renaming.
pub proof fn law_request(fd: i32)
    ensures
        fd >= 0 ==> vnode_request(fd).ident as int == fd as int,
        vnode_request(fd).filter == -4,
        vnode_request(fd).flags == 0x0021,
        vnode_request(fd).fflags == 0x0000_0023,
        vnode_request(fd).data == 0,
        vnode_request(fd).udata == 0,
{
    assert(EV_ADD | EV_CLEAR == 0x0021u16) by (bit_vector);
    assert(NOTE_DELETE | NOTE_WRITE | NOTE_RENAME == 0x0000_0023u32) by (bit_vector);
}

/// An event about a descriptor leads back to that descriptor.
pub proof fn law_ident_round_trip(fd: i32)
    ensures
        descriptor_of(ident_of(fd)) == fd,
{
    assert((fd as u64) as i32 == fd) by (bit_vector);
}

} // verus!
