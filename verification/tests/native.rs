use fswatch::kqueue::flags::{EV_ADD, NOTE_WRITE};
use fswatch::kqueue::queue::{timespec, Call, KQueueError, Timespec};
use fswatch::native::fallback::Backend;
use fswatch::native::kqueue::{kevent, EventFilter, KQueue, NativePath, Watcher};
use fswatch::native::Event;
use fswatch::path::{Path, PathSet};

#[test]
fn kqueue_kqueue_create_single_file() {
    // The directory `kqueue-create-single` is open before `file.log` is made in it.
    let native = NativePath::new(5).unwrap();
    let queue = KQueue::new(4).unwrap();

    let ievents = [kevent::new(&native, EventFilter::EVFILT_VNODE, EV_ADD, NOTE_WRITE, 0, 0)];
    let timeout = Timespec::new(0, 0);

    let call = queue.process(&ievents, 0, timeout);
    assert_eq!(
        Call {
            kq: 4,
            nchanges: 1,
            nevents: 0,
            timeout: Some(timespec { tv_sec: 0, tv_nsec: 0 }),
        },
        call
    );
    let ev = ievents[0];
    assert_eq!((5, -4, 1, 2, 0, 0), (ev.ident, ev.filter, ev.flags, ev.fflags, ev.data, ev.udata));
}

#[test]
fn native_errors() {
    assert_eq!(Err(-1), NativePath::new(-1));
    assert_eq!(Err(KQueueError::UnableToCreateKQueue), KQueue::new(-5));
    assert_eq!(Err(-3), Watcher::new(KQueue::new(4).unwrap(), -3));
}

#[test]
fn native_watcher_accepts_every_path() {
    let mut watcher = Watcher::new(KQueue::new(4).unwrap(), 5).unwrap();
    assert_eq!(Ok(()), watcher.watch(Path::new(b"/tmp".to_vec())));
}

#[test]
fn native_empty_event() {
    let ev = kevent::empty();
    assert_eq!((0, 0, 0, 0, 0, 0), (ev.ident, ev.filter, ev.flags, ev.fflags, ev.data, ev.udata));
    assert_eq!(-10, EventFilter::EVFILT_USER.code());
}

#[test]
fn fallback_knows_nothing() {
    let mut backend = Backend::new(250);
    backend.register(PathSet::new());
    assert_eq!(250, backend.watcher.period);
    assert_eq!(Event::Unknown, backend.transform(()));
}
