//! The polling watcher: it looks at every watched file now and then, and compares.
use std::collections::HashMap;

use vstd::prelude::*;
use vstd::std_specs::iter::IteratorSpec;

use crate::event;
use crate::path::{Path, PathSet};
use crate::report;
use crate::stat;
use crate::stat::{FileStat, Found};

pub mod laws;
pub mod steps;

pub use crate::event::{Event, EventView};

verus! {

broadcast use vstd::std_specs::hash::group_hash_axioms;

/// What the watcher remembers of a file.
#[derive(Debug)]
pub struct WatchedFileStat {
    pub path: Path,
    pub modified: u64,
    pub inode: u64,
}

/// A remembered file with its path as a byte sequence.
pub struct StatView {
    pub path: Seq<u8>,
    pub modified: u64,
    pub inode: u64,
}

impl View for WatchedFileStat {
    type V = StatView;

    open spec fn view(&self) -> StatView {
        StatView { path: self.path@, modified: self.modified, inode: self.inode }
    }
}

impl WatchedFileStat {
    pub fn new(path: Path, stat: &FileStat) -> (watched: WatchedFileStat)
        ensures
            watched@ == (StatView { path: path@, modified: stat.modified, inode: stat.inode }),
            watched.path@ == path@,
            watched.modified == stat.modified,
            watched.inode == stat.inode,
    {
        WatchedFileStat { path, modified: stat.modified, inode: stat.inode }
    }
}

/// The files that a scan has found, by inode.
pub type FileStatMap = HashMap<u64, WatchedFileStat>;

/// The contents of a table of files.
pub open spec fn table(files: FileStatMap) -> Map<u64, StatView> {
    files@.map_values(|file: WatchedFileStat| file@)
}

/// The table that a walk gives: the plain files among its finds, and of two finds with one inode
/// the later.
pub open spec fn scan_of(walk: Seq<stat::FoundView>) -> Map<u64, StatView>
    decreases walk.len(),
{
    if walk.len() == 0 {
        Map::empty()
    } else {
        let rest = scan_of(walk.drop_last());
        let found = walk.last();
        if found.stat.kind is TypeFile {
            rest.insert(
                found.stat.inode,
                StatView {
                    path: found.path,
                    modified: found.stat.modified,
                    inode: found.stat.inode,
                },
            )
        } else {
            rest
        }
    }
}

/// The events of creation that lie between two scans, by inode.
pub open spec fn creations(prev: Map<u64, StatView>, curr: Map<u64, StatView>) -> spec_fn(
    u64,
) -> Seq<EventView> {
    |inode: u64|
        if prev.contains_key(inode) {
            Seq::empty()
        } else {
            seq![EventView::Create(curr[inode].path)]
        }
}

/// The events of removal that lie between two scans, by inode.
pub open spec fn removals(prev: Map<u64, StatView>, curr: Map<u64, StatView>) -> spec_fn(
    u64,
) -> Seq<EventView> {
    |inode: u64|
        if curr.contains_key(inode) {
            Seq::empty()
        } else {
            seq![EventView::Remove(prev[inode].path)]
        }
}

/// The events that renaming and writing give, by inode: the new name comes before the change of
/// the contents.
pub open spec fn changes(prev: Map<u64, StatView>, curr: Map<u64, StatView>) -> spec_fn(
    u64,
) -> Seq<EventView> {
    |inode: u64|
        if prev.contains_key(inode) {
            let renamed = if prev[inode].path != curr[inode].path {
                seq![EventView::Rename(prev[inode].path, curr[inode].path)]
            } else {
                Seq::empty()
            };
            let written = if prev[inode].modified != curr[inode].modified {
                seq![EventView::Modify(curr[inode].path)]
            } else {
                Seq::empty()
            };
            renamed + written
        } else {
            Seq::empty()
        }
}

/// The client's side of the watcher: it knows which paths are watched.
#[derive(Debug)]
pub struct Watcher {
    paths: PathSet,
}

impl View for Watcher {
    type V = Set<Seq<u8>>;

    closed spec fn view(&self) -> Set<Seq<u8>> {
        self.paths@
    }
}

/// A message to the polling thread.
#[derive(Debug)]
pub enum Control {
    /// Watch these paths, and no others.
    Update(PathSet),
    /// Come to an end.
    Exit,
}

impl Watcher {
    /// A watcher that watches nothing yet.
    pub fn new() -> (watcher: Watcher)
        ensures
            watcher@ == Set::<Seq<u8>>::empty(),
    {
        Watcher { paths: PathSet::new() }
    }

    /// Adds `path` to the watched paths. The answer is the message that the polling thread is to
    /// get: all the paths that are watched from now on.
    pub fn watch(&mut self, path: Path) -> (message: Control)
        ensures
            final(self)@ == old(self)@.insert(path@),
            message matches Control::Update(paths) && paths@ == final(self)@,
    {
        self.paths.insert(path);
        Control::Update(self.paths.clone())
    }

    /// The message that the polling thread is to get when the watcher goes away.
    pub fn close(&self) -> (message: Control)
        ensures
            message is Exit,
    {
        Control::Exit
    }

    /// The table of the plain files among what a walk through the watched paths has found.
    pub fn rescan(walk: Vec<Found>) -> (files: FileStatMap)
        ensures
            table(files) == scan_of(stat::contents(walk@)),
            forall|inode: u64| #[trigger]
                files@.contains_key(inode) <==> steps::has_file(walk@, inode),
            forall|k: int| #[trigger]
                steps::last_file(walk@, k) ==> {
                    let file = files@[walk@[k].stat.inode];
                    &&& file.path@ == walk@[k].path@
                    &&& file.modified == walk@[k].stat.modified
                    &&& file.inode == walk@[k].stat.inode
                },
    {
        let mut files: FileStatMap = HashMap::new();
        let ghost all = stat::contents(walk@);
        let mut i: usize = 0;
        proof {
            assert(all.take(0) =~= Seq::empty());
            assert(table(files) =~= Map::empty());
        }
        while i < walk.len()
            invariant
                i <= walk@.len(),
                all == stat::contents(walk@),
                table(files) == scan_of(all.take(i as int)),
            decreases walk@.len() - i,
        {
            let found = &walk[i];
            let ghost before = files@;
            if found.stat.kind == stat::FileType::TypeFile {
                let file = WatchedFileStat::new(found.path.clone(), &found.stat);
                files.insert(found.stat.inode, file);
                proof {
                    assert(table(files) =~= before.map_values(
                        |file: WatchedFileStat| file@,
                    ).insert(found.stat.inode, file@));
                }
            }
            proof {
                assert(all.take(i + 1).drop_last() =~= all.take(i as int));
                assert(all.take(i + 1).last() == found@);
            }
            i = i + 1;
        }
        proof {
            assert(all.take(walk@.len() as int) =~= all);
            assert forall|inode: u64| #[trigger] files@.contains_key(inode) <==> steps::has_file(
                walk@,
                inode,
            ) by {
                steps::lemma_has_file(walk@, inode);
                assert(table(files).contains_key(inode) <==> files@.contains_key(inode));
            }
            assert forall|k: int| #[trigger] steps::last_file(walk@, k) implies {
                let file = files@[walk@[k].stat.inode];
                &&& file.path@ == walk@[k].path@
                &&& file.modified == walk@[k].stat.modified
                &&& file.inode == walk@[k].stat.inode
            } by {
                steps::law_scan_keeps(walk@, k);
                assert(table(files).contains_key(walk@[k].stat.inode));
                assert(table(files)[walk@[k].stat.inode] == files@[walk@[k].stat.inode]@);
            }
        }
        files
    }

    /// A `Create` for each file of `curr` that `prev` does not know.
    pub fn created(prev: &FileStatMap, curr: &FileStatMap) -> (events: Vec<Event>)
        ensures
            report::reports(
                event::contents(events@),
                table(*curr).dom(),
                creations(table(*prev), table(*curr)),
            ),
            steps::tells_creations(*prev, *curr, events@),
    {
        let mut events: Vec<Event> = Vec::new();
        let ghost events_of = creations(table(*prev), table(*curr));
        proof {
            assert(event::contents(events@) =~= Seq::empty());
        }
        let iter = curr.iter();
        let ghost all = iter.remaining();
        for (inode, stat) in walk: iter
            invariant
                walk.seq() == all,
                events_of == creations(table(*prev), table(*curr)),
                forall|i: int|
                    #![trigger all[i]]
                    0 <= i < all.len() ==> curr@.contains_key(*all[i].0) && curr@[*all[i].0]
                        == *all[i].1,
                event::contents(events@) == report::pass(
                    report::keys_of(all, walk.index() as int),
                    events_of,
                ),
        {
            let ghost before = event::contents(events@);
            proof {
                report::lemma_walk_step(all, walk.index() as int, events_of);
            }
            if !prev.contains_key(inode) {
                events.push(Event::Create(stat.path.clone()));
            }
            proof {
                assert(event::contents(events@) =~= before + events_of(*inode));
            }
        }
        proof {
            report::lemma_walk_visits(all, curr@);
            assert(table(*curr).dom() =~= curr@.dom());
            steps::law_tells_creations(*prev, *curr, events@);
        }
        events
    }

    /// A `Remove` for each file of `prev` that `curr` no longer holds.
    pub fn removed(prev: &FileStatMap, curr: &FileStatMap) -> (events: Vec<Event>)
        ensures
            report::reports(
                event::contents(events@),
                table(*prev).dom(),
                removals(table(*prev), table(*curr)),
            ),
            steps::tells_removals(*prev, *curr, events@),
    {
        let mut events: Vec<Event> = Vec::new();
        let ghost events_of = removals(table(*prev), table(*curr));
        proof {
            assert(event::contents(events@) =~= Seq::empty());
        }
        let iter = prev.iter();
        let ghost all = iter.remaining();
        for (inode, stat) in walk: iter
            invariant
                walk.seq() == all,
                events_of == removals(table(*prev), table(*curr)),
                forall|i: int|
                    #![trigger all[i]]
                    0 <= i < all.len() ==> prev@.contains_key(*all[i].0) && prev@[*all[i].0]
                        == *all[i].1,
                event::contents(events@) == report::pass(
                    report::keys_of(all, walk.index() as int),
                    events_of,
                ),
        {
            let ghost before = event::contents(events@);
            proof {
                report::lemma_walk_step(all, walk.index() as int, events_of);
            }
            if !curr.contains_key(inode) {
                events.push(Event::Remove(stat.path.clone()));
            }
            proof {
                assert(event::contents(events@) =~= before + events_of(*inode));
            }
        }
        proof {
            report::lemma_walk_visits(all, prev@);
            assert(table(*prev).dom() =~= prev@.dom());
            steps::law_tells_removals(*prev, *curr, events@);
        }
        events
    }

    /// For each file that both scans hold, a `Rename` where its path has changed, and then a `Modify`
    /// where it was written to.
    pub fn modified(prev: &FileStatMap, curr: &FileStatMap) -> (events: Vec<Event>)
        ensures
            report::reports(
                event::contents(events@),
                table(*curr).dom(),
                changes(table(*prev), table(*curr)),
            ),
            steps::tells_changes(*prev, *curr, events@),
    {
        let mut events: Vec<Event> = Vec::new();
        let ghost events_of = changes(table(*prev), table(*curr));
        proof {
            assert(event::contents(events@) =~= Seq::empty());
        }
        let iter = curr.iter();
        let ghost all = iter.remaining();
        for (inode, stat) in walk: iter
            invariant
                walk.seq() == all,
                events_of == changes(table(*prev), table(*curr)),
                forall|i: int|
                    #![trigger all[i]]
                    0 <= i < all.len() ==> curr@.contains_key(*all[i].0) && curr@[*all[i].0]
                        == *all[i].1,
                event::contents(events@) == report::pass(
                    report::keys_of(all, walk.index() as int),
                    events_of,
                ),
        {
            let ghost before = event::contents(events@);
            proof {
                report::lemma_walk_step(all, walk.index() as int, events_of);
            }
            if let Some(prevstat) = prev.get(inode) {
                if prevstat.path != stat.path {
                    events.push(Event::Rename(prevstat.path.clone(), stat.path.clone()));
                }
                if prevstat.modified != stat.modified {
                    events.push(Event::Modify(stat.path.clone()));
                }
            }
            proof {
                assert(event::contents(events@) =~= before + events_of(*inode));
            }
        }
        proof {
            report::lemma_walk_visits(all, curr@);
            assert(table(*curr).dom() =~= curr@.dom());
            steps::law_tells_changes(*prev, *curr, events@);
        }
        events
    }
}

/// What the events of one comparison are: the creations, then the removals, then the changes.
pub open spec fn comparison(
    events: Seq<EventView>,
    prev: Map<u64, StatView>,
    curr: Map<u64, StatView>,
) -> bool {
    exists|created: Seq<EventView>, removed: Seq<EventView>, changed: Seq<EventView>|
        {
            &&& #[trigger] report::reports(created, curr.dom(), creations(prev, curr))
            &&& #[trigger] report::reports(removed, prev.dom(), removals(prev, curr))
            &&& #[trigger] report::reports(changed, curr.dom(), changes(prev, curr))
            &&& events == created + removed + changed
        }
}

/// What the polling thread is about.
#[derive(Debug, Clone, Copy, PartialEq, Eq, Structural)]
pub enum Phase {
    /// It waits for a message or for the clock.
    Idle,
    /// It scans newly given paths, to have something to compare with.
    Baseline,
    /// It scans to compare with the scan before.
    Comparing,
    /// It has come to an end.
    Stopped,
}

/// What happens to the polling thread.
#[derive(Debug)]
pub enum Input {
    /// A message has come.
    Message(Control),
    /// Another period has passed.
    Tick,
    /// The scan that was asked for has found this.
    Scanned(Vec<Found>),
}

/// What the polling thread is to do next.
#[derive(Debug)]
pub enum Action {
    /// Wait for a message or for the clock.
    Select,
    /// Walk through these paths and hand back everything found.
    Scan(Vec<Path>),
    /// Send these events to the client, in this order, and then wait.
    Deliver(Vec<Event>),
    /// Leave the loop.
    Stop,
    /// Nothing: the input does not belong to the phase.
    Refuse,
}

/// The time between two comparisons, in milliseconds.
pub const PERIOD_MILLIS: u64 = 100;

/// The polling thread's loop, one step at a time.
#[derive(Debug)]
pub struct Poller {
    paths: PathSet,
    prev: FileStatMap,
    phase: Phase,
}

/// The state of the loop: the watched paths, the last scan, and what is going on.
pub struct PollerView {
    pub paths: Set<Seq<u8>>,
    pub prev: Map<u64, StatView>,
    pub phase: Phase,
}

impl View for Poller {
    type V = PollerView;

    closed spec fn view(&self) -> PollerView {
        PollerView { paths: self.paths@, prev: table(self.prev), phase: self.phase }
    }
}

/// Whether `action` asks for a scan of exactly `paths`, each of them once.
pub open spec fn asks_for_scan(action: Action, paths: Set<Seq<u8>>) -> bool {
    action matches Action::Scan(list) && crate::path::contents(list@).no_duplicates()
        && crate::path::contents(list@).to_set() == paths
}

/// Whether the loop in the state `pre` may answer `input` with `action` and the state `post`.
pub open spec fn transition(
    pre: PollerView,
    input: Input,
    post: PollerView,
    action: Action,
) -> bool {
    match (pre.phase, input) {
        (Phase::Idle, Input::Message(Control::Update(paths))) => {
            &&& post == PollerView { paths: paths@, phase: Phase::Baseline, ..pre }
            &&& asks_for_scan(action, paths@)
        },
        (Phase::Idle, Input::Message(Control::Exit)) => {
            &&& post == PollerView { phase: Phase::Stopped, ..pre }
            &&& action is Stop
        },
        (Phase::Idle, Input::Tick) => {
            &&& post == PollerView { phase: Phase::Comparing, ..pre }
            &&& asks_for_scan(action, pre.paths)
        },
        (Phase::Baseline, Input::Scanned(walk)) => {
            &&& post == PollerView {
                prev: scan_of(stat::contents(walk@)),
                phase: Phase::Idle,
                ..pre
            }
            &&& action is Select
        },
        (Phase::Comparing, Input::Scanned(walk)) => {
            &&& post == PollerView {
                prev: scan_of(stat::contents(walk@)),
                phase: Phase::Idle,
                ..pre
            }
            &&& action matches Action::Deliver(events) && comparison(
                event::contents(events@),
                pre.prev,
                post.prev,
            )
        },
        _ => {
            &&& post == pre
            &&& action is Refuse
        },
    }
}

impl Poller {
    /// The loop at its start: nothing is watched, and nothing has been seen.
    pub fn new() -> (poller: Poller)
        ensures
            poller@ == (PollerView {
                paths: Set::empty(),
                prev: Map::empty(),
                phase: Phase::Idle,
            }),
    {
        let prev: FileStatMap = HashMap::new();
        proof {
            assert(table(prev) =~= Map::empty());
        }
        Poller { paths: PathSet::new(), prev, phase: Phase::Idle }
    }

    /// All events between the scan before and `curr`.
    fn compare(&self, curr: &FileStatMap) -> (events: Vec<Event>)
        ensures
            comparison(event::contents(events@), table(self.prev), table(*curr)),
    {
        let mut events = Watcher::created(&self.prev, curr);
        let ghost created = event::contents(events@);
        let mut removed = Watcher::removed(&self.prev, curr);
        let ghost removals = event::contents(removed@);
        let mut changed = Watcher::modified(&self.prev, curr);
        let ghost changes = event::contents(changed@);
        events.append(&mut removed);
        events.append(&mut changed);
        proof {
            assert(event::contents(events@) =~= created + removals + changes);
        }
        events
    }

    /// Takes one step of the loop.
    pub fn step(&mut self, input: Input) -> (action: Action)
        ensures
            transition(old(self)@, input, final(self)@, action),
    {
        match (self.phase, input) {
            (Phase::Idle, Input::Message(Control::Update(paths))) => {
                let list = paths.to_vec();
                self.paths = paths;
                self.phase = Phase::Baseline;
                Action::Scan(list)
            },
            (Phase::Idle, Input::Message(Control::Exit)) => {
                self.phase = Phase::Stopped;
                Action::Stop
            },
            (Phase::Idle, Input::Tick) => {
                self.phase = Phase::Comparing;
                Action::Scan(self.paths.to_vec())
            },
            (Phase::Baseline, Input::Scanned(walk)) => {
                self.prev = Watcher::rescan(walk);
                self.phase = Phase::Idle;
                Action::Select
            },
            (Phase::Comparing, Input::Scanned(walk)) => {
                let curr = Watcher::rescan(walk);
                let events = self.compare(&curr);
                self.prev = curr;
                self.phase = Phase::Idle;
                Action::Deliver(events)
            },
            _ => Action::Refuse,
        }
    }
}

} // verus!
