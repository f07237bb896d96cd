//! The kernel queue and the descriptors in it.
use vstd::prelude::*;

use crate::kqueue::kernel::kevent;
use crate::normal;
use crate::path::Path;

verus! {

/// Why there is no queue.
#[derive(Debug, Clone, Copy, PartialEq, Eq, Structural)]
pub enum KQueueError {
    UnableToCreateKQueue,
}

/// A file that is open for reading. Whoever holds the handler is the one to close it.
#[derive(Debug, PartialEq, Eq, Structural)]
pub struct FileHandler {
    pub fd: i32,
}

impl FileHandler {
    /// The handler for what opening a file has returned. A negative number says that the file was
    /// not opened, and is the error.
    pub fn new(fd: i32) -> (handler: Result<FileHandler, i32>)
        ensures
            fd < 0 ==> handler == Err::<FileHandler, i32>(fd),
            fd >= 0 ==> handler == Ok::<FileHandler, i32>(FileHandler { fd }),
    {
        if fd < 0 {
            return Err(fd);
        }
        Ok(FileHandler { fd })
    }
}

/// A time in seconds and nanoseconds, the latter less than a second.
#[derive(Debug, Clone, Copy, PartialEq, Eq, Structural)]
pub struct Timespec {
    pub sec: i64,
    pub nsec: i32,
}

/// Calls `time::Timespec::new` and takes the two public fields of its result. They hold the two
/// arguments as they were given. The call panics where the nanoseconds are negative or make up a
/// second.
#[verifier::external_body]
fn timespec_parts(sec: i64, nsec: i32) -> (parts: (i64, i32))
    requires
        0 <= nsec < 1_000_000_000,
    ensures
        parts.0 == sec,
        parts.1 == nsec,
{
    let spec = time::Timespec::new(sec, nsec);
    (spec.sec, spec.nsec)
}

impl Timespec {
    pub fn new(sec: i64, nsec: i32) -> (time: Timespec)
        requires
            0 <= nsec < 1_000_000_000,
        ensures
            time == (Timespec { sec, nsec }),
    {
        let parts = timespec_parts(sec, nsec);
        Timespec { sec: parts.0, nsec: parts.1 }
    }
}

/// A time as the kernel takes it.
#[allow(non_camel_case_types)]
#[derive(Debug, Clone, Copy, PartialEq, Eq, Structural)]
pub struct timespec {
    pub tv_sec: i64,
    pub tv_nsec: i64,
}

/// The numbers of one call to the kernel, beside the two lists of events that go with it.
#[derive(Debug, Clone, Copy, PartialEq, Eq, Structural)]
pub struct Call {
    pub kq: i32,
    /// How many requests there are.
    pub nchanges: i32,
    /// How many events there is room for.
    pub nevents: i32,
    /// How long to wait for an event. Without it the kernel waits as long as it takes.
    pub timeout: Option<timespec>,
}

/// The time `time` as the kernel takes it.
pub open spec fn kernel_time(time: Timespec) -> timespec {
    timespec { tv_sec: time.sec, tv_nsec: time.nsec as i64 }
}

/// The call that hands `nchanges` requests to the queue `kq` and has room for `nevents` events.
pub open spec fn call_of(
    kq: i32,
    nchanges: usize,
    nevents: usize,
    timeout: Option<Timespec>,
) -> Call {
    Call {
        kq,
        nchanges: nchanges as i32,
        nevents: nevents as i32,
        timeout: match timeout {
            Some(time) => Some(kernel_time(time)),
            None => None,
        },
    }
}

/// The command that asks for the path behind a descriptor.
pub const F_GETPATH: i32 = 50;

/// How many bytes the kernel may need to write a path.
pub const MAX_PATH: usize = 1024;

/// The bytes up to the first zero byte, or all of them where there is none.
pub open spec fn before_nul(bytes: Seq<u8>) -> Seq<u8>
    decreases bytes.len(),
{
    if bytes.len() == 0 || bytes[0] == 0 {
        Seq::empty()
    } else {
        seq![bytes[0]] + before_nul(bytes.skip(1))
    }
}

/// Whether the string in a buffer is `n` bytes long: none of them is zero, and a zero byte or the
/// end of the buffer follows.
pub open spec fn ends_at(buffer: Seq<u8>, n: int) -> bool {
    &&& 0 <= n <= buffer.len()
    &&& forall|i: int| 0 <= i < n ==> buffer[i] != 0
    &&& n == buffer.len() || buffer[n] == 0
}

/// A zero byte ends the string in a buffer, and no other byte does: of what stands before the
/// first zero byte every byte belongs to the string, and nothing behind it does.
pub proof fn law_ends_at_zero(buffer: Seq<u8>, n: int)
    requires
        0 <= n <= buffer.len(),
        forall|i: int| 0 <= i < n ==> buffer[i] != 0,
        n == buffer.len() || buffer[n] == 0,
    ensures
        before_nul(buffer) == buffer.take(n),
    decreases n,
{
    if n == 0 {
        assert(buffer.take(0) =~= Seq::empty());
    } else {
        law_ends_at_zero(buffer.skip(1), n - 1);
        assert(seq![buffer[0]] + buffer.skip(1).take(n - 1) =~= buffer.take(n));
    }
}

/// What a call tells the kernel: the queue, how many requests and how much room there is, and how
/// long to wait. No number is changed that the kernel's own numbers can hold.
pub proof fn law_call(kq: i32, nchanges: usize, nevents: usize, timeout: Option<Timespec>)
    ensures
        call_of(kq, nchanges, nevents, timeout).kq == kq,
        nchanges <= i32::MAX ==> call_of(kq, nchanges, nevents, timeout).nchanges as int
            == nchanges as int,
        nevents <= i32::MAX ==> call_of(kq, nchanges, nevents, timeout).nevents as int
            == nevents as int,
        timeout is None <==> call_of(kq, nchanges, nevents, timeout).timeout is None,
        timeout matches Some(time) ==> (call_of(kq, nchanges, nevents, timeout).timeout matches Some(
            t,
        ) && t.tv_sec == time.sec && t.tv_nsec as int == time.nsec as int),
{
}

/// The path behind a descriptor, from what the kernel has returned when asked for it and from what
/// it has written to the buffer: a string that a zero byte ends. Anything but zero says that the
/// kernel could not tell.
pub fn getpath(status: i32, buffer: &[u8]) -> (path: Option<Path>)
    ensures
        path is Some <==> status == 0,
        path matches Some(p) ==> p@ == normal::normalized(before_nul(buffer@)),
        forall|n: int|
            ends_at(buffer@, n) ==> (path matches Some(p) ==> p@ == normal::normalized(
                #[trigger] buffer@.take(n),
            )),
{
    if status != 0 {
        return None;
    }
    let mut bytes: Vec<u8> = Vec::new();
    let mut i: usize = 0;
    proof {
        assert(buffer@.skip(0) =~= buffer@);
    }
    while i < buffer.len() && buffer[i] != 0
        invariant
            i <= buffer@.len(),
            before_nul(buffer@) =~= bytes@ + before_nul(buffer@.skip(i as int)),
        decreases buffer@.len() - i,
    {
        proof {
            assert(buffer@.skip(i as int).skip(1) =~= buffer@.skip(i + 1));
        }
        bytes.push(buffer[i]);
        i = i + 1;
    }
    proof {
        assert(before_nul(buffer@) =~= bytes@);
        assert forall|n: int| ends_at(buffer@, n) implies bytes@ == #[trigger] buffer@.take(n) by {
            law_ends_at_zero(buffer@, n);
        }
    }
    Some(Path::new(bytes))
}

/// A queue of kernel events.
#[derive(Debug, PartialEq, Eq, Structural)]
pub struct KQueue {
    pub fd: i32,
}

impl KQueue {
    /// The queue for what the kernel has returned when asked for one.
    pub fn new(fd: i32) -> (queue: Result<KQueue, KQueueError>)
        ensures
            fd < 0 ==> queue == Err::<KQueue, KQueueError>(KQueueError::UnableToCreateKQueue),
            fd >= 0 ==> queue == Ok::<KQueue, KQueueError>(KQueue { fd }),
    {
        if fd < 0 {
            return Err(KQueueError::UnableToCreateKQueue);
        }
        Ok(KQueue { fd })
    }

    /// The call that hands the requests `input` to the queue, with room for `output` events.
    pub fn process(&self, input: &[kevent], output: usize, timeout: &Option<Timespec>) -> (call:
        Call)
        ensures
            call == call_of(self.fd, input@.len() as usize, output, *timeout),
            call.kq == self.fd,
            input@.len() <= i32::MAX ==> call.nchanges as int == input@.len(),
            output <= i32::MAX ==> call.nevents as int == output as int,
            *timeout is None ==> call.timeout is None,
            *timeout matches Some(time) ==> call.timeout == Some(
                timespec { tv_sec: time.sec, tv_nsec: time.nsec as i64 },
            ),
    {
        let timeout = match *timeout {
            Some(value) => Some(timespec { tv_sec: value.sec, tv_nsec: value.nsec as i64 }),
            None => None,
        };
        #[verifier::truncate]
        let nchanges: i32 = input.len() as i32;
        #[verifier::truncate]
        let nevents: i32 = output as i32;
        Call { kq: self.fd, nchanges, nevents, timeout }
    }
}

} // verus!
