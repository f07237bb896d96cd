//! The bit sets of kernel events.
use vstd::prelude::*;

verus! {

/// What kind of thing an event is about.
pub type EventFilter = i16;

/// What the queue is to do with a request, and how it answers.
pub type EventFlags = u16;

/// What happened to the thing that an event is about.
pub type EventFilterFlags = u32;

pub const EVFILT_VNODE: EventFilter = -4;

pub const EVFILT_USER: EventFilter = -10;

pub const EV_ADD: EventFlags = 0x0001;

pub const EV_ENABLE: EventFlags = 0x0004;

pub const EV_CLEAR: EventFlags = 0x0020;

pub const NOTE_DELETE: EventFilterFlags = 0x00000001;

pub const NOTE_WRITE: EventFilterFlags = 0x00000002;

pub const NOTE_EXTEND: EventFilterFlags = 0x00000004;

pub const NOTE_ATTRIB: EventFilterFlags = 0x00000008;

pub const NOTE_LINK: EventFilterFlags = 0x00000010;

pub const NOTE_RENAME: EventFilterFlags = 0x00000020;

pub const NOTE_REVOKE: EventFilterFlags = 0x00000040;

pub const NOTE_NONE: EventFilterFlags = 0x00000080;

pub const NOTE_TRIGGER: EventFilterFlags = 0x01000000;

/// A set of bits.
pub trait Bits: Sized {
    /// Whether the two sets have a bit in common.
    spec fn meets(self, other: Self) -> bool;

    /// Whether the two sets have a bit in common.
    fn intersects(self, other: Self) -> (yes: bool)
        ensures
            yes == self.meets(other),
    ;
}

/// Two sets of bits meet just where some bit is in both of them.
pub proof fn law_meets(a: u32, b: u32, c: i16, d: i16)
    ensures
        a.meets(b) <==> a & b != 0,
        forall|bit: u32| #[trigger] (a & bit) != 0 && b & bit == bit ==> a.meets(b),
        c.meets(d) <==> c & d != 0,
        forall|bit: i16| #[trigger] (c & bit) != 0 && d & bit == bit ==> c.meets(d),
{
    assert forall|bit: u32| #[trigger] (a & bit) != 0 && b & bit == bit implies a.meets(b) by {
        assert(a & bit != 0 && b & bit == bit ==> a & b != 0) by (bit_vector);
    }
    assert forall|bit: i16| #[trigger] (c & bit) != 0 && d & bit == bit implies c.meets(d) by {
        assert(c & bit != 0 && d & bit == bit ==> c & d != 0) by (bit_vector);
    }
}

impl Bits for i16 {
    open spec fn meets(self, other: i16) -> bool {
        self & other != 0
    }

    fn intersects(self, other: i16) -> (yes: bool) {
        self & other != 0
    }
}

impl Bits for u32 {
    open spec fn meets(self, other: u32) -> bool {
        self & other != 0
    }

    fn intersects(self, other: u32) -> (yes: bool) {
        self & other != 0
    }
}

} // verus!
