use std::collections::HashSet;

use fswatch::event::Event;
use fswatch::kqueue::flags::{
    Bits, EVFILT_USER, EVFILT_VNODE, EV_ADD, EV_CLEAR, NOTE_ATTRIB, NOTE_DELETE, NOTE_RENAME,
    NOTE_WRITE,
};
use fswatch::kqueue::internal::{
    Added, ClonableFileType, Ignored, Internal, Opened, Outcome, WatchedFileStat,
};
use fswatch::kqueue::kernel::kevent;
use fswatch::kqueue::queue::{getpath, timespec, Call, Timespec, F_GETPATH, MAX_PATH};
use fswatch::kqueue::watcher::{Action, Control, Input, BUFFER};
use fswatch::kqueue::{FileHandler, KQueue, KQueueError, Watcher};
use fswatch::path::Path;
use fswatch::stat::{FileStat, FileType, Found};

fn path(name: &str) -> Path {
    Path::new(name.as_bytes().to_vec())
}

fn filename(path: &Path) -> String {
    let name = String::from_utf8(path.as_vec().clone()).unwrap();
    name.rsplit('/').next().unwrap().to_string()
}

fn stat(kind: FileType, inode: u64) -> FileStat {
    FileStat { kind, modified: 1000, inode }
}

fn opened(name: &str, fd: i32, kind: FileType, inode: u64) -> Opened {
    Opened { path: path(name), handler: FileHandler::new(fd).unwrap(), stat: stat(kind, inode) }
}

fn file(name: &str, fd: i32, inode: u64) -> Opened {
    opened(name, fd, FileType::TypeFile, inode)
}

fn dir(name: &str, fd: i32, inode: u64) -> Opened {
    opened(name, fd, FileType::TypeDirectory, inode)
}

fn found(name: &str, inode: u64) -> Found {
    Found { path: path(name), stat: stat(FileType::TypeFile, inode) }
}

fn vnode(fd: i32, fflags: u32) -> kevent {
    kevent::new(fd as u64, EVFILT_VNODE, EV_ADD | EV_CLEAR, fflags)
}

fn start() -> Watcher {
    Watcher::new(3).unwrap()
}

/// Leads the loop through one round in which `target` is added, and up to where the kernel's
/// events are waited for.
fn watch(watcher: &mut Watcher, name: &str, target: Opened, entries: Vec<Opened>) -> Vec<kevent> {
    match watcher.step(Input::Message(Watcher::watch(path(name)))) {
        Action::Open(p) => assert!(p == path(name)),
        other => panic!("{:?}", other),
    }
    let action = match watcher.step(Input::Opened(target)) {
        Action::Enter(p) => {
            assert!(p == path(name));
            watcher.step(Input::Entered(entries))
        }
        action => {
            assert!(entries.is_empty());
            action
        }
    };
    let requests = match action {
        Action::Register { call, changes, closed } => {
            assert_eq!(3, call.kq);
            assert_eq!(changes.len() as i32, call.nchanges);
            assert_eq!(0, call.nevents);
            assert_eq!(None, call.timeout);
            assert!(closed.is_empty());
            changes
        }
        other => panic!("{:?}", other),
    };
    match watcher.step(Input::Registered(0)) {
        Action::Wait(_) => {}
        other => panic!("{:?}", other),
    }
    requests
}

/// Hands the events to a loop that waits for them.
fn kernel(watcher: &mut Watcher, events: Vec<kevent>) -> Action {
    let n = events.len() as i32;
    let mut buffer = events;
    while buffer.len() < BUFFER {
        buffer.push(kevent::invalid());
    }
    watcher.step(Input::Kernel(n, buffer))
}

/// Ends a round without a message, up to where the kernel's events are waited for again.
fn next_round(watcher: &mut Watcher) {
    match watcher.step(Input::Done) {
        Action::Poll => {}
        other => panic!("{:?}", other),
    }
    match watcher.step(Input::Empty) {
        Action::Wait(_) => {}
        other => panic!("{:?}", other),
    }
}

fn only(action: Action) -> Event {
    match action {
        Action::Deliver { mut events, .. } => {
            assert_eq!(1, events.len());
            events.pop().unwrap()
        }
        other => panic!("{:?}", other),
    }
}

#[test]
fn kqueue_create_single_file() {
    // The directory `kqueue-create-single` is open when `file.log` is made in it.
    let ntmp = FileHandler::new(5).unwrap();
    let queue = KQueue::new(4).unwrap();

    let input = [kevent::new(ntmp.fd as u64, EVFILT_VNODE, EV_ADD, NOTE_WRITE)];
    let call = queue.process(&input, 0, &None);
    assert_eq!(Call { kq: 4, nchanges: 1, nevents: 0, timeout: None }, call);

    let call = queue.process(&[], 1, &None);
    assert_eq!(Call { kq: 4, nchanges: 0, nevents: 1, timeout: None }, call);

    let actual = input[0];
    assert_eq!(ntmp.fd as u64, actual.ident);
    assert_eq!(EVFILT_VNODE, actual.filter);
    assert_eq!(EV_ADD, actual.flags);
    assert_eq!(NOTE_WRITE, actual.fflags);
}

#[test]
fn watch_file_modify_file() {
    let name = "/tmp/watch_file_modify_file/file.log";
    let mut watcher = start();
    watch(&mut watcher, name, file(name, 5, 50), vec![]);

    match only(kernel(&mut watcher, vec![vnode(5, NOTE_WRITE)])) {
        Event::Modify(actual) => assert!(path(name) == actual),
        _ => panic!("Expected `Modify` event"),
    }
}

#[test]
fn watch_file_remove_file() {
    let name = "/tmp/watch_file_remove_file/file.log";
    let mut watcher = start();
    watch(&mut watcher, name, file(name, 5, 50), vec![]);

    match kernel(&mut watcher, vec![vnode(5, NOTE_DELETE)]) {
        Action::Deliver { events, closed } => {
            assert_eq!(Some(FileHandler { fd: 5 }), closed);
            match &events[..] {
                [Event::Remove(actual)] => assert!(path(name) == *actual),
                _ => panic!("Expected `Remove` event"),
            }
        }
        _ => panic!("Expected `Remove` event"),
    }
}

#[test]
fn watch_file_rename_file() {
    let name = "/tmp/watch_file_rename_file/file.log";
    let mut watcher = start();
    watch(&mut watcher, name, file(name, 5, 50), vec![]);

    match kernel(&mut watcher, vec![vnode(5, NOTE_RENAME)]) {
        Action::Locate(fd) => assert_eq!(5, fd),
        other => panic!("{:?}", other),
    }
    match watcher.step(Input::Located(path("/tmp/watch_file_rename_file/file-new.log"))) {
        Action::Inspect(dir) => assert!(dir == path("/tmp/watch_file_rename_file")),
        other => panic!("{:?}", other),
    }
    // The directory is not among the watched things.
    match only(watcher.step(Input::Inspected(49))) {
        Event::Remove(old) => assert!(old == path(name)),
        _ => panic!("Expected `Remove` event"),
    }
}

#[test]
fn watch_dir_create_single_file() {
    let tmp = "/tmp/watch_dir_create_single_file";
    let name = "/tmp/watch_dir_create_single_file/file.log";
    let mut watcher = start();
    watch(&mut watcher, tmp, dir(tmp, 5, 50), vec![]);

    match kernel(&mut watcher, vec![vnode(5, NOTE_WRITE)]) {
        Action::Scan(p) => assert!(p == path(tmp)),
        other => panic!("{:?}", other),
    }
    match only(watcher.step(Input::Scanned(vec![found(name, 51)]))) {
        Event::Create(actual) => assert!(path(name) == actual),
        _ => panic!("Expected `Create` event"),
    }
}

#[test]
fn watch_dir_remove_single_file() {
    let tmp = "/tmp/watch_dir_remove_single_file";
    let name = "/tmp/watch_dir_remove_single_file/file.log";
    let mut watcher = start();
    watch(&mut watcher, tmp, dir(tmp, 5, 50), vec![file(name, 6, 51)]);

    let action = kernel(&mut watcher, vec![vnode(6, NOTE_DELETE), vnode(5, NOTE_WRITE)]);
    match only(action) {
        Event::Remove(actual) => assert!(path(name) == actual),
        _ => panic!("Expected `Remove` event"),
    }
}

#[test]
fn watch_dir_rename_single_file() {
    let tmp = "/home/watch_dir_rename_single_file";
    let oldpath = "/home/watch_dir_rename_single_file/file-old.log";
    let newpath = "/home/watch_dir_rename_single_file/file-new.log";
    let mut watcher = start();
    watch(&mut watcher, tmp, dir(tmp, 5, 50), vec![file(oldpath, 6, 51)]);

    match kernel(&mut watcher, vec![vnode(6, NOTE_RENAME)]) {
        Action::Locate(fd) => assert_eq!(6, fd),
        other => panic!("{:?}", other),
    }
    match watcher.step(Input::Located(path(newpath))) {
        Action::Inspect(dir) => assert!(dir == path(tmp)),
        other => panic!("{:?}", other),
    }
    match only(watcher.step(Input::Inspected(50))) {
        Event::Rename(old, new) => {
            assert!(path(oldpath) == old);
            assert!(path(newpath) == new);
            assert_eq!("file-old.log", filename(&old));
            assert_eq!("file-new.log", filename(&new));
        }
        _ => panic!("Expected `Rename` event"),
    }
}

#[test]
fn kqueue_create_two_files_in_different_directories() {
    let mut watcher = start();
    watch(&mut watcher, "/tmp/create-1", dir("/tmp/create-1", 5, 50), vec![]);
    match kernel(&mut watcher, vec![]) {
        Action::Poll => {}
        other => panic!("{:?}", other),
    }
    watch(&mut watcher, "/tmp/create-2", dir("/tmp/create-2", 6, 60), vec![]);

    let mut matches = HashSet::new();
    matches.insert("file1.log".to_string());
    matches.insert("file2.log".to_string());

    match kernel(&mut watcher, vec![vnode(5, NOTE_WRITE), vnode(6, NOTE_WRITE)]) {
        Action::Scan(p) => assert!(p == path("/tmp/create-1")),
        other => panic!("{:?}", other),
    }
    match only(watcher.step(Input::Scanned(vec![found("/tmp/create-1/file1.log", 51)]))) {
        Event::Create(p) => assert!(matches.remove(&filename(&p))),
        _ => panic!("Expected `Create` event"),
    }
    match watcher.step(Input::Done) {
        Action::Scan(p) => assert!(p == path("/tmp/create-2")),
        other => panic!("{:?}", other),
    }
    match only(watcher.step(Input::Scanned(vec![found("/tmp/create-2/file2.log", 61)]))) {
        Event::Create(p) => assert!(matches.remove(&filename(&p))),
        _ => panic!("Expected `Create` event"),
    }
    assert!(matches.is_empty());
}

#[test]
fn kqueue_rename_file_from_nonwatched_directory_to_watched() {
    // Event should be considered as file creation in watched directory: `file-old.log` comes from
    // `rename-nowatched`.
    let tmp2 = "/tmp/rename-towatched";
    let newpath = "/tmp/rename-towatched/file-new.log";
    let mut watcher = start();
    watch(&mut watcher, tmp2, dir(tmp2, 5, 50), vec![]);

    match kernel(&mut watcher, vec![vnode(5, NOTE_WRITE)]) {
        Action::Scan(p) => assert!(p == path(tmp2)),
        other => panic!("{:?}", other),
    }
    match only(watcher.step(Input::Scanned(vec![found(newpath, 71)]))) {
        Event::Create(p) => assert_eq!("file-new.log", filename(&p)),
        _ => panic!("Expected `Create` event"),
    }
}

#[test]
fn kqueue_rename_file_from_watched_directory_to_nonwatched() {
    // Event should be considered as file removing in watched directory.
    let tmp1 = "/tmp/rename-watched";
    let oldpath = "/tmp/rename-watched/file-old.log";
    let newpath = "/tmp/rename-nonwatched/file-new.log";
    let mut watcher = start();
    watch(&mut watcher, tmp1, dir(tmp1, 5, 50), vec![file(oldpath, 6, 51)]);

    kernel(&mut watcher, vec![vnode(6, NOTE_RENAME)]);
    match watcher.step(Input::Located(path(newpath))) {
        Action::Inspect(dir) => assert!(dir == path("/tmp/rename-nonwatched")),
        other => panic!("{:?}", other),
    }
    match only(watcher.step(Input::Inspected(60))) {
        Event::Remove(p) => assert_eq!("file-old.log", filename(&p)),
        _ => panic!("Expected `Remove` event"),
    }
}

#[test]
fn kqueue_rename_file_from_watched_directory_to_watched() {
    // Event should be considered as file renaming.
    let tmp1 = "/home/rename_watched1";
    let tmp2 = "/home/rename_watched2";
    let oldpath = "/home/rename_watched1/file-old.log";
    let newpath = "/home/rename_watched2/file-new.log";
    let mut watcher = start();
    watch(&mut watcher, tmp1, dir(tmp1, 5, 50), vec![file(oldpath, 6, 51)]);
    kernel(&mut watcher, vec![]);
    watch(&mut watcher, tmp2, dir(tmp2, 7, 60), vec![]);

    kernel(&mut watcher, vec![vnode(6, NOTE_RENAME)]);
    watcher.step(Input::Located(path(newpath)));
    match only(watcher.step(Input::Inspected(60))) {
        Event::Rename(old, new) => {
            assert!(path(oldpath) == old);
            assert!(path(newpath) == new);
        }
        _ => panic!("Expected `Rename` event"),
    }
}

#[test]
fn no_queue_is_an_error() {
    assert_eq!(Err(KQueueError::UnableToCreateKQueue), KQueue::new(-1));
    assert_eq!(Ok(KQueue { fd: 0 }), KQueue::new(0));
    match Watcher::new(-1) {
        Err(err) => assert_eq!(KQueueError::UnableToCreateKQueue, err),
        Ok(_) => panic!("a watcher without a queue"),
    }
}

#[test]
fn file_that_was_not_opened_is_an_error() {
    assert_eq!(Err(-2), FileHandler::new(-2));
    assert_eq!(Ok(FileHandler { fd: 0 }), FileHandler::new(0));
}

#[test]
fn filter_bits() {
    assert!(NOTE_WRITE.intersects(NOTE_WRITE | NOTE_DELETE));
    assert!(!NOTE_WRITE.intersects(NOTE_DELETE));
    // The numbers of the two filters are negative and have bits in common.
    assert!(EVFILT_USER.intersects(EVFILT_VNODE));
    assert!(!(0i16).intersects(EVFILT_VNODE));
    assert!(!(3i16).intersects(EVFILT_VNODE));
}

#[test]
fn kevent_parts() {
    let ev = kevent::raw(9, EVFILT_VNODE, EV_ADD, NOTE_WRITE, -7, 4096);
    assert_eq!((9, -4, 1, 2, -7, 4096), (ev.ident, ev.filter, ev.flags, ev.fflags, ev.data, ev.udata));
    let ev = kevent::invalid();
    assert_eq!((0, -10, 0, 0, 0, 0), (ev.ident, ev.filter, ev.flags, ev.fflags, ev.data, ev.udata));
    let ev = kevent::watching(12);
    assert_eq!((12, -4, 0x21, 0x23), (ev.ident, ev.filter, ev.flags, ev.fflags));
}

#[test]
fn ident_leads_back_to_the_descriptor() {
    for fd in [0, 1, 12, i32::MAX, -1, i32::MIN] {
        assert_eq!(fd, kevent::watching(fd).descriptor());
    }
    assert_eq!(5, kevent::new((1 << 32) + 5, EVFILT_VNODE, 0, 0).descriptor());
}

#[test]
fn timespec_keeps_its_parts() {
    let time = Timespec::new(7, 123_456_789);
    assert_eq!((7, 123_456_789), (time.sec, time.nsec));
    let queue = KQueue::new(4).unwrap();
    let call = queue.process(&[], 8, &Some(time));
    assert_eq!(Some(timespec { tv_sec: 7, tv_nsec: 123_456_789 }), call.timeout);
}

#[test]
fn loop_waits_a_tenth_of_a_second() {
    let mut watcher = start();
    match watcher.step(Input::Empty) {
        Action::Wait(call) => assert_eq!(
            Call {
                kq: 3,
                nchanges: 0,
                nevents: 8,
                timeout: Some(timespec { tv_sec: 0, tv_nsec: 100_000_000 }),
            },
            call
        ),
        other => panic!("{:?}", other),
    }
}

#[test]
fn getpath_stops_at_the_first_zero() {
    assert_eq!((50, 1024), (F_GETPATH, MAX_PATH));
    let mut buffer = [0u8; 1024];
    buffer[..8].copy_from_slice(b"/tmp/a\0x");
    assert!(getpath(0, &buffer).unwrap() == path("/tmp/a"));
    assert!(getpath(-1, &buffer).is_none());
    assert!(getpath(0, b"abc").unwrap() == path("abc"));
    assert_eq!(b"/tmp/a", getpath(0, b"/tmp//a/\0b").unwrap().as_vec().as_slice());
    assert_eq!(b".", getpath(0, b"\0").unwrap().as_vec().as_slice());
}

#[test]
fn clones_of_file_types() {
    for kind in [
        FileType::TypeFile,
        FileType::TypeDirectory,
        FileType::TypeNamedPipe,
        FileType::TypeBlockSpecial,
        FileType::TypeSymlink,
        FileType::TypeUnknown,
    ] {
        assert_eq!(kind, ClonableFileType(kind).clone().0);
    }
}

#[test]
fn watched_stat_keeps_what_was_said() {
    let watched = WatchedFileStat::new(path("/a"), &stat(FileType::TypeSymlink, 9)).clone();
    assert!(watched.path == path("/a"));
    assert_eq!(FileType::TypeSymlink, watched.kind.0);
    assert_eq!((1000, 9), (watched.modified, watched.inode));
}

#[test]
fn adding_asks_for_one_request_each() {
    let mut tables = Internal::new();
    let Added { input, closed } =
        tables.add(dir("/d", 5, 50), vec![file("/d/a", 6, 51), dir("/d/e", 7, 52)]);
    assert_eq!(vec![5, 6, 7], input.iter().map(|ev| ev.ident).collect::<Vec<u64>>());
    assert!(closed.is_empty());
    for ev in &input {
        assert_eq!(EVFILT_VNODE, ev.filter);
        assert_eq!(EV_ADD | EV_CLEAR, ev.flags);
        assert_eq!(NOTE_DELETE | NOTE_WRITE | NOTE_RENAME, ev.fflags);
    }
}

#[test]
fn adding_neither_file_nor_directory_does_nothing() {
    let mut tables = Internal::new();
    let Added { input, closed } = tables.add(opened("/p", 5, FileType::TypeNamedPipe, 50), vec![]);
    assert!(input.is_empty());
    assert_eq!(vec![FileHandler { fd: 5 }], closed);
    match tables.process(&vnode(5, NOTE_WRITE)) {
        Outcome::Ignore(why) => assert_eq!(Ignored::Unregistered, why),
        other => panic!("{:?}", other),
    }
    assert!(tables.release().is_empty());
}

#[test]
fn a_file_has_no_entries() {
    let mut tables = Internal::new();
    let Added { input, closed } = tables.add(file("/f", 5, 50), vec![file("/f/x", 6, 51)]);
    assert_eq!(1, input.len());
    assert_eq!(vec![FileHandler { fd: 6 }], closed);
}

#[test]
fn a_handler_with_the_same_descriptor_makes_way() {
    let mut tables = Internal::new();
    tables.add(file("/a", 5, 50), vec![]);
    let Added { closed, .. } = tables.add(file("/b", 5, 51), vec![]);
    assert_eq!(vec![FileHandler { fd: 5 }], closed);
    assert!(tables.path_of(5).unwrap() == path("/b"));
    assert!(tables.path_of(6).is_none());
}

#[test]
fn events_of_no_interest() {
    let mut tables = Internal::new();
    tables.add(dir("/d", 5, 50), vec![file("/d/a", 6, 51), opened("/d/s", 7, FileType::TypeSymlink, 52)]);
    let cases = [
        (vnode(9, NOTE_WRITE), Ignored::Unregistered),
        (kevent::new(6, 1, 0, NOTE_WRITE), Ignored::NotVnode),
        (vnode(6, NOTE_ATTRIB), Ignored::Uninteresting),
        (vnode(5, NOTE_DELETE | NOTE_RENAME), Ignored::Uninteresting),
        (vnode(7, NOTE_WRITE), Ignored::NotFileOrDirectory),
    ];
    for (ev, expected) in cases {
        match tables.process(&ev) {
            Outcome::Ignore(why) => assert_eq!(expected, why),
            other => panic!("{:?}", other),
        }
    }
}

#[test]
fn writing_goes_before_deleting_and_renaming() {
    let mut tables = Internal::new();
    tables.add(file("/a", 5, 50), vec![]);
    match tables.process(&vnode(5, NOTE_WRITE | NOTE_DELETE | NOTE_RENAME)) {
        Outcome::Report { event: Event::Modify(p), closed: None } => assert!(p == path("/a")),
        other => panic!("{:?}", other),
    }
    match tables.process(&vnode(5, NOTE_DELETE | NOTE_RENAME)) {
        Outcome::Report { event: Event::Remove(p), closed } => {
            assert!(p == path("/a"));
            assert_eq!(Some(FileHandler { fd: 5 }), closed);
        }
        other => panic!("{:?}", other),
    }
    // The handler is gone, but the descriptor is still known.
    match tables.process(&vnode(5, NOTE_DELETE)) {
        Outcome::Report { event: Event::Remove(_), closed } => assert_eq!(None, closed),
        other => panic!("{:?}", other),
    }
    match tables.process(&vnode(5, NOTE_RENAME)) {
        Outcome::Locate { fd, path: p } => {
            assert_eq!(5, fd);
            assert!(p == path("/a"));
        }
        other => panic!("{:?}", other),
    }
}

#[test]
fn nothing_is_discovered_twice() {
    let mut tables = Internal::new();
    tables.add(dir("/d", 5, 50), vec![file("/d/a", 6, 51)]);
    assert!(tables.scanned(50, vec![found("/d/a", 51)]).is_empty());
    assert_eq!(vec![Event::Create(path("/d/b"))], tables.scanned(50, vec![found("/d/a", 51), found("/d/b", 52)]));
    assert!(tables.scanned(50, vec![found("/d/a", 51), found("/d/b", 52)]).is_empty());
    // Gone and back again it is still no news.
    assert!(tables.scanned(50, vec![found("/d/a", 51)]).is_empty());
    assert!(tables.scanned(50, vec![found("/d/a", 51), found("/d/b", 52)]).is_empty());
}

#[test]
fn of_two_names_with_one_inode_the_later_counts() {
    let mut tables = Internal::new();
    tables.add(dir("/d", 5, 50), vec![]);
    let events = tables.scanned(50, vec![found("/d/x", 51), found("/d/y", 51)]);
    assert_eq!(vec![Event::Create(path("/d/y"))], events);
}

#[test]
fn a_directory_below_the_added_one_is_not_compared() {
    let mut tables = Internal::new();
    tables.add(dir("/d", 5, 50), vec![dir("/d/e", 6, 51)]);
    assert!(tables.scanned(51, vec![found("/d/e/new", 52)]).is_empty());
    // The directory that was added reports it.
    assert_eq!(1, tables.scanned(50, vec![found("/d/e", 51), found("/d/e/new", 52)]).len());
}

#[test]
fn renamed_within_or_out_of_the_watched() {
    let mut tables = Internal::new();
    tables.add(dir("/d", 5, 50), vec![]);
    assert_eq!(Event::Rename(path("/a"), path("/d/a")), tables.renamed(path("/a"), path("/d/a"), 50));
    assert_eq!(Event::Remove(path("/a")), tables.renamed(path("/a"), path("/e/a"), 99));
}

#[test]
fn every_descriptor_is_handed_out_once() {
    let mut watcher = start();
    watch(&mut watcher, "/d", dir("/d", 5, 50), vec![file("/d/a", 6, 51), file("/d/b", 7, 52)]);
    match kernel(&mut watcher, vec![vnode(6, NOTE_DELETE)]) {
        Action::Deliver { closed, .. } => assert_eq!(Some(FileHandler { fd: 6 }), closed),
        other => panic!("{:?}", other),
    }
    match watcher.step(Input::Done) {
        Action::Poll => {}
        other => panic!("{:?}", other),
    }
    match watcher.step(Input::Message(Watcher::close())) {
        Action::Stop { closed, queue } => {
            let mut fds: Vec<i32> = closed.iter().map(|handler| handler.fd).collect();
            fds.sort();
            assert_eq!(vec![5, 7], fds);
            assert_eq!(KQueue { fd: 3 }, queue);
        }
        other => panic!("{:?}", other),
    }
}

#[test]
fn the_loop_ends_for_good() {
    for ending in [Input::Message(Control::Exit), Input::Disconnected] {
        let mut watcher = start();
        assert!(matches!(watcher.step(ending), Action::Stop { .. }));
        assert!(matches!(watcher.step(Input::Empty), Action::Refuse));
        assert!(matches!(watcher.step(Input::Message(Control::Add(path("/a")))), Action::Refuse));
    }
    let mut watcher = start();
    watcher.step(Input::Empty);
    assert!(matches!(watcher.step(Input::Kernel(-1, vec![])), Action::Stop { .. }));
    assert!(matches!(watcher.step(Input::Done), Action::Refuse));
}

#[test]
fn the_loop_refuses_what_it_does_not_wait_for() {
    let mut watcher = start();
    assert!(matches!(watcher.step(Input::Done), Action::Refuse));
    assert!(matches!(watcher.step(Input::Inspected(1)), Action::Refuse));
    assert!(matches!(watcher.step(Input::Empty), Action::Wait(_)));
    assert!(matches!(watcher.step(Input::Empty), Action::Refuse));
}

#[test]
fn only_as_many_events_count_as_the_kernel_says() {
    let mut watcher = start();
    watch(&mut watcher, "/a", file("/a", 5, 50), vec![]);
    let buffer = vec![vnode(9, NOTE_WRITE), vnode(5, NOTE_WRITE)];
    assert!(matches!(
        watcher.step(Input::Kernel(1, buffer)),
        Action::Skip(Ignored::Unregistered)
    ));
    next_round(&mut watcher);
    assert!(matches!(kernel(&mut watcher, vec![]), Action::Poll));
}

#[test]
fn what_was_added_is_no_news_for_the_rest_of_the_run() {
    let mut watcher = start();
    watch(&mut watcher, "/d", dir("/d", 5, 50), vec![file("/d/a", 6, 51), file("/d/b", 7, 52)]);
    // The first walk comes upon nothing that was added, the second upon all of it again.
    let walks = [
        (vec![found("/d/c", 53)], vec![Event::Create(path("/d/c"))]),
        (
            vec![found("/d", 50), found("/d/a", 51), found("/d/b", 52), found("/d/c", 53)],
            vec![],
        ),
        (
            vec![found("/d/a2", 51), found("/d/e", 54)],
            vec![Event::Create(path("/d/e"))],
        ),
    ];
    for (walk, expected) in walks {
        match kernel(&mut watcher, vec![vnode(5, NOTE_WRITE)]) {
            Action::Scan(p) => assert!(p == path("/d")),
            other => panic!("{:?}", other),
        }
        match watcher.step(Input::Scanned(walk)) {
            Action::Deliver { events, .. } => assert_eq!(expected, events),
            other => panic!("{:?}", other),
        }
        next_round(&mut watcher);
    }
}
