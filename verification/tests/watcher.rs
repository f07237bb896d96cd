use std::collections::HashSet;

use fswatch::event::Event;
use fswatch::path::{Path, PathSet};
use fswatch::stat::{FileStat, FileType, Found};
use fswatch::watcher::{
    Action, Control, Input, Poller, WatchedFileStat, Watcher, PERIOD_MILLIS,
};

fn path(name: &str) -> Path {
    Path::new(name.as_bytes().to_vec())
}

fn filename(path: &Path) -> String {
    let name = String::from_utf8(path.as_vec().clone()).unwrap();
    name.rsplit('/').next().unwrap().to_string()
}

fn found(name: &str, kind: FileType, modified: u64, inode: u64) -> Found {
    Found { path: path(name), stat: FileStat { kind, modified, inode } }
}

fn file(name: &str, inode: u64) -> Found {
    found(name, FileType::TypeFile, 1000, inode)
}

/// Hands the message to the loop, and `walk` as what the scan of the new paths finds.
fn update(poller: &mut Poller, message: Control, walk: Vec<Found>) {
    match poller.step(Input::Message(message)) {
        Action::Scan(_) => {}
        other => panic!("{:?}", other),
    }
    match poller.step(Input::Scanned(walk)) {
        Action::Select => {}
        other => panic!("{:?}", other),
    }
}

/// Lets a period pass, after which a scan finds `walk`.
fn tick(poller: &mut Poller, walk: Vec<Found>) -> Vec<Event> {
    match poller.step(Input::Tick) {
        Action::Scan(_) => {}
        other => panic!("{:?}", other),
    }
    match poller.step(Input::Scanned(walk)) {
        Action::Deliver(events) => events,
        other => panic!("{:?}", other),
    }
}

fn only(mut events: Vec<Event>) -> Event {
    assert_eq!(1, events.len());
    events.pop().unwrap()
}

#[test]
fn create_single_file() {
    let mut watcher = Watcher::new();
    let mut poller = Poller::new();
    update(&mut poller, watcher.watch(path("/tmp/create-single")), vec![]);

    match only(tick(&mut poller, vec![file("/tmp/create-single/file.log", 51)])) {
        Event::Create(p) => assert_eq!("file.log", filename(&p)),
        _ => panic!("Expected `Create` event"),
    }
}

#[test]
fn remove_single_file() {
    let mut watcher = Watcher::new();
    let mut poller = Poller::new();
    update(
        &mut poller,
        watcher.watch(path("/tmp/remove-single")),
        vec![file("/tmp/remove-single/file.log", 51)],
    );

    match only(tick(&mut poller, vec![])) {
        Event::Remove(p) => assert_eq!("file.log", filename(&p)),
        _ => panic!("Expected `Remove` event"),
    }
}

#[test]
fn rename_single_file() {
    let mut watcher = Watcher::new();
    let mut poller = Poller::new();
    update(
        &mut poller,
        watcher.watch(path("/tmp/rename-single")),
        vec![file("/tmp/rename-single/file-old.log", 51)],
    );

    match only(tick(&mut poller, vec![file("/tmp/rename-single/file-new.log", 51)])) {
        Event::Rename(old, new) => {
            assert_eq!("file-old.log", filename(&old));
            assert_eq!("file-new.log", filename(&new));
        }
        _ => panic!("Expected `Rename` event"),
    }
}

#[test]
fn modify_single_file() {
    let name = "/tmp/modify-single/file.log";
    let mut watcher = Watcher::new();
    let mut poller = Poller::new();
    update(&mut poller, watcher.watch(path("/tmp/modify-single")), vec![file(name, 51)]);

    match only(tick(&mut poller, vec![found(name, FileType::TypeFile, 2000, 51)])) {
        Event::Modify(p) => assert_eq!("file.log", filename(&p)),
        _ => panic!("Expected `Modify` event"),
    }
}

#[test]
fn watcher_create_two_files_in_different_directories() {
    let mut watcher = Watcher::new();
    let mut poller = Poller::new();
    update(&mut poller, watcher.watch(path("/tmp/create-1")), vec![]);
    update(&mut poller, watcher.watch(path("/tmp/create-2")), vec![]);

    let mut matches = HashSet::new();
    matches.insert("file1.log".to_string());
    matches.insert("file2.log".to_string());

    let walk = vec![file("/tmp/create-1/file1.log", 51), file("/tmp/create-2/file2.log", 61)];
    let mut counter = 2u8;
    for event in tick(&mut poller, walk) {
        match event {
            Event::Create(p) => assert!(matches.remove(&filename(&p))),
            _ => panic!("Expected `Create` event"),
        }
        counter -= 1;
    }
    assert_eq!(0, counter);
    assert!(matches.is_empty());
}

#[test]
fn watcher_rename_file_from_nonwatched_directory_to_watched() {
    // Event should be considered as file creation in watched directory: `file-old.log` comes from
    // `rename-nowatched`.
    let mut watcher = Watcher::new();
    let mut poller = Poller::new();
    update(&mut poller, watcher.watch(path("/tmp/rename-towatched")), vec![]);

    match only(tick(&mut poller, vec![file("/tmp/rename-towatched/file-new.log", 51)])) {
        Event::Create(p) => assert_eq!("file-new.log", filename(&p)),
        _ => panic!("Expected `Create` event"),
    }
}

#[test]
fn watcher_rename_file_from_watched_directory_to_nonwatched() {
    // Event should be considered as file removing in watched directory: `file-new.log` goes to
    // `rename-nowatched`.
    let mut watcher = Watcher::new();
    let mut poller = Poller::new();
    update(
        &mut poller,
        watcher.watch(path("/tmp/rename-iswatched")),
        vec![file("/tmp/rename-iswatched/file-old.log", 51)],
    );

    match only(tick(&mut poller, vec![])) {
        Event::Remove(p) => assert_eq!("file-old.log", filename(&p)),
        _ => panic!("Expected `Remove` event"),
    }
}

#[test]
fn watcher_rename_file_from_watched_directory_to_watched() {
    // Event should be considered as file renaming.
    let mut watcher = Watcher::new();
    let mut poller = Poller::new();
    let old = "/tmp/rename-watched1/file-old.log";
    update(&mut poller, watcher.watch(path("/tmp/rename-watched1")), vec![file(old, 51)]);
    update(&mut poller, watcher.watch(path("/tmp/rename-watched2")), vec![file(old, 51)]);

    match only(tick(&mut poller, vec![file("/tmp/rename-watched2/file-new.log", 51)])) {
        Event::Rename(old, new) => {
            assert_eq!("file-old.log", filename(&old));
            assert_eq!("file-new.log", filename(&new));
        }
        _ => panic!("Expected `Rename` event"),
    }
}

#[test]
fn unchanged_files_are_no_news() {
    let mut watcher = Watcher::new();
    let mut poller = Poller::new();
    let walk = || vec![file("/d/a", 1), file("/d/b", 2)];
    update(&mut poller, watcher.watch(path("/d")), walk());
    assert!(tick(&mut poller, walk()).is_empty());
    assert!(tick(&mut poller, walk()).is_empty());
}

#[test]
fn creations_then_removals_then_changes() {
    let mut watcher = Watcher::new();
    let mut poller = Poller::new();
    update(&mut poller, watcher.watch(path("/d")), vec![file("/d/a", 1), file("/d/b", 2)]);
    let events = tick(&mut poller, vec![found("/d/c", FileType::TypeFile, 9, 2), file("/d/n", 3)]);
    assert_eq!(
        vec![
            Event::Create(path("/d/n")),
            Event::Remove(path("/d/a")),
            Event::Rename(path("/d/b"), path("/d/c")),
            Event::Modify(path("/d/c")),
        ],
        events
    );
}

#[test]
fn every_changed_file_is_reported_once() {
    let mut watcher = Watcher::new();
    let mut poller = Poller::new();
    update(&mut poller, watcher.watch(path("/d")), vec![]);
    let names: Vec<String> = (0..20).map(|i| format!("/d/{}", i)).collect();
    let walk: Vec<Found> = names.iter().enumerate().map(|(i, name)| file(name, i as u64)).collect();
    let mut seen: Vec<Vec<u8>> = tick(&mut poller, walk)
        .into_iter()
        .map(|event| match event {
            Event::Create(p) => p.as_vec().clone(),
            other => panic!("{:?}", other),
        })
        .collect();
    let mut expected: Vec<Vec<u8>> = names.iter().map(|name| name.as_bytes().to_vec()).collect();
    seen.sort();
    expected.sort();
    assert_eq!(expected, seen);
}

#[test]
fn only_plain_files_are_kept() {
    let table = Watcher::rescan(vec![
        found("/d/e", FileType::TypeDirectory, 1, 1),
        found("/d/p", FileType::TypeNamedPipe, 1, 2),
        file("/d/a", 3),
        file("/d/later", 3),
    ]);
    assert_eq!(1, table.len());
    assert!(table[&3].path == path("/d/later"));
    assert_eq!(3, table[&3].inode);
    assert_eq!(1000, table[&3].modified);
}

#[test]
fn the_three_comparisons() {
    let prev = Watcher::rescan(vec![file("/d/a", 1), file("/d/b", 2)]);
    let curr = Watcher::rescan(vec![file("/d/c", 2), file("/d/n", 3)]);
    assert_eq!(vec![Event::Create(path("/d/n"))], Watcher::created(&prev, &curr));
    assert_eq!(vec![Event::Remove(path("/d/a"))], Watcher::removed(&prev, &curr));
    assert_eq!(vec![Event::Rename(path("/d/b"), path("/d/c"))], Watcher::modified(&prev, &curr));
}

#[test]
fn watched_file_keeps_what_was_said() {
    let watched = WatchedFileStat::new(
        path("/a"),
        &FileStat { kind: FileType::TypeFile, modified: 5, inode: 9 },
    );
    assert!(watched.path == path("/a"));
    assert_eq!((5, 9), (watched.modified, watched.inode));
}

#[test]
fn an_update_names_all_watched_paths() {
    let mut watcher = Watcher::new();
    watcher.watch(path("/a"));
    watcher.watch(path("/b"));
    match watcher.watch(path("/a")) {
        Control::Update(paths) => {
            let list = paths.to_vec();
            assert_eq!(2, list.len());
            assert!(paths.contains(&path("/a")) && paths.contains(&path("/b")));
            assert!(!paths.contains(&path("/c")));
        }
        other => panic!("{:?}", other),
    }
    assert!(matches!(watcher.close(), Control::Exit));
}

#[test]
fn a_scan_is_asked_for_the_watched_paths() {
    let mut watcher = Watcher::new();
    let mut poller = Poller::new();
    match poller.step(Input::Tick) {
        Action::Scan(paths) => assert!(paths.is_empty()),
        other => panic!("{:?}", other),
    }
    assert!(matches!(poller.step(Input::Scanned(vec![])), Action::Deliver(_)));
    match poller.step(Input::Message(watcher.watch(path("/a")))) {
        Action::Scan(paths) => assert_eq!(vec![path("/a")], paths),
        other => panic!("{:?}", other),
    }
    assert_eq!(100, PERIOD_MILLIS);
}

#[test]
fn an_exit_is_final() {
    let mut poller = Poller::new();
    assert!(matches!(poller.step(Input::Scanned(vec![])), Action::Refuse));
    assert!(matches!(poller.step(Input::Message(Control::Exit)), Action::Stop));
    assert!(matches!(poller.step(Input::Tick), Action::Refuse));
    assert!(matches!(poller.step(Input::Message(Control::Update(PathSet::new()))), Action::Refuse));
}

#[test]
fn directories_of_paths() {
    let cases = [
        ("/tmp/a/file.log", "/tmp/a"),
        ("/file.log", "/"),
        ("/", "/"),
        ("file.log", "."),
        (".", "."),
        ("..", ".."),
        ("../..", "../.."),
        ("a/b", "a"),
        ("", "."),
        ("/a/b/", "/a"),
        ("a/", "."),
        ("../a", ".."),
    ];
    for (name, dir) in cases {
        assert_eq!(path(dir), path(name).dir_path());
    }
}

#[test]
fn sets_of_paths() {
    let mut set = PathSet::new();
    assert!(set.insert(path("/a")));
    assert!(!set.insert(path("/a")));
    assert!(!set.insert(path("/a/")));
    assert!(set.contains(&path("//a/./b/..")));
    assert!(set.insert(path("/ab")));
    assert_eq!(vec![path("/a"), path("/ab")], set.clone().to_vec());
}

#[test]
fn spellings_of_one_path() {
    let cases = [
        ("", "."),
        (".", "."),
        ("./.", "."),
        ("/", "/"),
        ("///", "/"),
        ("hi", "hi"),
        ("hi/", "hi"),
        ("/lib/", "/lib"),
        ("a//b", "a/b"),
        ("/./hi/./there/.", "/hi/there"),
        ("hi/../there", "there"),
        ("hi/..", "."),
        ("../hi", "../hi"),
        ("/../hi", "/hi"),
        ("foo/../..", ".."),
        ("foo/../../..", "../.."),
        ("foo/../../bar", "../bar"),
        ("/foo/../..", "/"),
        ("a/...", "a/..."),
        (".hidden/..x", ".hidden/..x"),
    ];
    for (name, normal) in cases {
        assert_eq!(normal.as_bytes(), path(name).as_vec().as_slice());
        assert_eq!(path(normal), path(name));
        assert_eq!(path(name), Path::new(path(name).as_vec().clone()));
    }
}

#[test]
fn paths_that_are_strings() {
    assert_eq!(Some("/tmp/b\u{fc}cher"), path("/tmp/b\u{fc}cher/").as_str());
    assert_eq!(Some("."), path("").as_str());
    assert_eq!(None, Path::new(vec![47, 0xff]).as_str());
    assert_eq!(None, Path::new(vec![97, 0xc3]).as_str());
}
