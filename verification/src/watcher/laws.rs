//! What holds of the polling watcher as a whole.
use vstd::prelude::*;

use crate::event;
use crate::event::EventView;
use crate::path::PathSet;
use crate::report;
use crate::stat;
use crate::stat::Found;
use crate::watcher;
use crate::watcher::{Action, Control, Input, Phase, PollerView, StatView};

verus! {

/// Where nothing has changed between two scans, nothing is reported.
pub proof fn law_unchanged(events: Seq<EventView>, files: Map<u64, StatView>)
    requires
        watcher::comparison(events, files, files),
    ensures
        events.len() == 0,
{
    let (created, removed, changed) = parts(events, files, files);
    report::law_silent(created, files.dom(), watcher::creations(files, files));
    report::law_silent(removed, files.dom(), watcher::removals(files, files));
    report::law_silent(changed, files.dom(), watcher::changes(files, files));
}

/// The three pieces that the events of a comparison are made of.
pub proof fn parts(
    events: Seq<EventView>,
    prev: Map<u64, StatView>,
    curr: Map<u64, StatView>,
) -> (pieces: (Seq<EventView>, Seq<EventView>, Seq<EventView>))
    requires
        watcher::comparison(events, prev, curr),
    ensures
        report::reports(pieces.0, curr.dom(), watcher::creations(prev, curr)),
        report::reports(pieces.1, prev.dom(), watcher::removals(prev, curr)),
        report::reports(pieces.2, curr.dom(), watcher::changes(prev, curr)),
        events == pieces.0 + pieces.1 + pieces.2,
{
    choose|created: Seq<EventView>, removed: Seq<EventView>, changed: Seq<EventView>|
        {
            &&& #[trigger] report::reports(created, curr.dom(), watcher::creations(prev, curr))
            &&& #[trigger] report::reports(removed, prev.dom(), watcher::removals(prev, curr))
            &&& #[trigger] report::reports(changed, curr.dom(), watcher::changes(prev, curr))
            &&& events == created + removed + changed
        }
}

/// One new file, and nothing else, is reported as its creation. It makes no difference where it
/// comes from: a file that is moved in from outside the watched paths is a new one.
pub proof fn law_one_created(
    events: Seq<EventView>,
    prev: Map<u64, StatView>,
    inode: u64,
    file: StatView,
)
    requires
        !prev.contains_key(inode),
        watcher::comparison(events, prev, prev.insert(inode, file)),
    ensures
        events == seq![EventView::Create(file.path)],
{
    let curr = prev.insert(inode, file);
    let (created, removed, changed) = parts(events, prev, curr);
    report::law_only(created, curr.dom(), watcher::creations(prev, curr), inode);
    report::law_silent(removed, prev.dom(), watcher::removals(prev, curr));
    report::law_silent(changed, curr.dom(), watcher::changes(prev, curr));
    assert(events =~= seq![EventView::Create(file.path)]);
}

/// One file that is gone, and nothing else, is reported as its removal. It makes no difference
/// whether it was deleted or moved out of the watched paths.
pub proof fn law_one_removed(events: Seq<EventView>, prev: Map<u64, StatView>, inode: u64)
    requires
        prev.contains_key(inode),
        watcher::comparison(events, prev, prev.remove(inode)),
    ensures
        events == seq![EventView::Remove(prev[inode].path)],
{
    let curr = prev.remove(inode);
    let (created, removed, changed) = parts(events, prev, curr);
    report::law_silent(created, curr.dom(), watcher::creations(prev, curr));
    report::law_only(removed, prev.dom(), watcher::removals(prev, curr), inode);
    report::law_silent(changed, curr.dom(), watcher::changes(prev, curr));
    assert(events =~= seq![EventView::Remove(prev[inode].path)]);
}

/// One file with another name, and nothing else, is reported as its renaming, wherever within
/// the watched paths it has gone.
pub proof fn law_one_renamed(
    events: Seq<EventView>,
    prev: Map<u64, StatView>,
    inode: u64,
    path: Seq<u8>,
)
    requires
        prev.contains_key(inode),
        path != prev[inode].path,
        watcher::comparison(
            events,
            prev,
            prev.insert(inode, StatView { path, ..prev[inode] }),
        ),
    ensures
        events == seq![EventView::Rename(prev[inode].path, path)],
{
    let curr = prev.insert(inode, StatView { path, ..prev[inode] });
    let (created, removed, changed) = parts(events, prev, curr);
    report::law_silent(created, curr.dom(), watcher::creations(prev, curr));
    report::law_silent(removed, prev.dom(), watcher::removals(prev, curr));
    report::law_only(changed, curr.dom(), watcher::changes(prev, curr), inode);
    assert(events =~= seq![EventView::Rename(prev[inode].path, path)]);
}

/// One file with another time of its last change, and nothing else, is reported as written to.
pub proof fn law_one_modified(
    events: Seq<EventView>,
    prev: Map<u64, StatView>,
    inode: u64,
    modified: u64,
)
    requires
        prev.contains_key(inode),
        modified != prev[inode].modified,
        watcher::comparison(
            events,
            prev,
            prev.insert(inode, StatView { modified, ..prev[inode] }),
        ),
    ensures
        events == seq![EventView::Modify(prev[inode].path)],
{
    let curr = prev.insert(inode, StatView { modified, ..prev[inode] });
    let (created, removed, changed) = parts(events, prev, curr);
    report::law_silent(created, curr.dom(), watcher::creations(prev, curr));
    report::law_silent(removed, prev.dom(), watcher::removals(prev, curr));
    report::law_only(changed, curr.dom(), watcher::changes(prev, curr), inode);
    assert(events =~= seq![EventView::Modify(prev[inode].path)]);
}

/// Whether an event is reported for the file with this inode.
pub open spec fn has_event(
    prev: Map<u64, StatView>,
    curr: Map<u64, StatView>,
    inode: u64,
    event: EventView,
) -> bool {
    match event {
        EventView::Create(path) => !prev.contains_key(inode) && curr.contains_key(inode)
            && curr[inode].path == path,
        EventView::Remove(path) => prev.contains_key(inode) && !curr.contains_key(inode)
            && prev[inode].path == path,
        EventView::Rename(from, to) => prev.contains_key(inode) && curr.contains_key(inode)
            && prev[inode].path == from && curr[inode].path == to && from != to,
        EventView::Modify(path) => prev.contains_key(inode) && curr.contains_key(inode)
            && curr[inode].path == path && prev[inode].modified != curr[inode].modified,
    }
}

/// A comparison reports every change of every file, and nothing that is no change.
pub proof fn law_every_change(
    events: Seq<EventView>,
    prev: Map<u64, StatView>,
    curr: Map<u64, StatView>,
    event: EventView,
)
    requires
        watcher::comparison(events, prev, curr),
    ensures
        events.contains(event) <==> exists|inode: u64| #[trigger]
            has_event(prev, curr, inode, event),
{
    let (created, removed, changed) = parts(events, prev, curr);
    let creations = watcher::creations(prev, curr);
    let removals = watcher::removals(prev, curr);
    let changes = watcher::changes(prev, curr);
    report::law_member(created, curr.dom(), creations, event);
    report::law_member(removed, prev.dom(), removals, event);
    report::law_member(changed, curr.dom(), changes, event);
    lemma_contains_sum(created, removed, changed, event);
    assert forall|inode: u64| #[trigger] has_event(prev, curr, inode, event) <==> {
        ||| curr.dom().contains(inode) && creations(inode).contains(event)
        ||| prev.dom().contains(inode) && removals(inode).contains(event)
        ||| curr.dom().contains(inode) && changes(inode).contains(event)
    } by {
        lemma_event_of_file(prev, curr, inode, event);
    }
    if events.contains(event) {
        if created.contains(event) {
            let inode = choose|inode: u64| #[trigger]
                curr.dom().contains(inode) && creations(inode).contains(event);
            assert(has_event(prev, curr, inode, event));
        } else if removed.contains(event) {
            let inode = choose|inode: u64| #[trigger]
                prev.dom().contains(inode) && removals(inode).contains(event);
            assert(has_event(prev, curr, inode, event));
        } else {
            let inode = choose|inode: u64| #[trigger]
                curr.dom().contains(inode) && changes(inode).contains(event);
            assert(has_event(prev, curr, inode, event));
        }
    }
}

proof fn lemma_contains_sum(
    a: Seq<EventView>,
    b: Seq<EventView>,
    c: Seq<EventView>,
    event: EventView,
)
    ensures
        (a + b + c).contains(event) <==> a.contains(event) || b.contains(event) || c.contains(
            event,
        ),
{
    let sum = a + b + c;
    if sum.contains(event) {
        let i = choose|i: int| 0 <= i < sum.len() && sum[i] == event;
        if i < a.len() {
            assert(a[i] == event);
        } else if i < a.len() + b.len() {
            assert(b[i - a.len()] == event);
        } else {
            assert(c[i - a.len() - b.len()] == event);
        }
    }
    if a.contains(event) {
        let i = choose|i: int| 0 <= i < a.len() && a[i] == event;
        assert(sum[i] == event);
    }
    if b.contains(event) {
        let i = choose|i: int| 0 <= i < b.len() && b[i] == event;
        assert(sum[a.len() + i] == event);
    }
    if c.contains(event) {
        let i = choose|i: int| 0 <= i < c.len() && c[i] == event;
        assert(sum[a.len() + b.len() + i] == event);
    }
}

proof fn lemma_event_of_file(
    prev: Map<u64, StatView>,
    curr: Map<u64, StatView>,
    inode: u64,
    event: EventView,
)
    ensures
        has_event(prev, curr, inode, event) <==> {
            ||| curr.dom().contains(inode) && watcher::creations(prev, curr)(inode).contains(event)
            ||| prev.dom().contains(inode) && watcher::removals(prev, curr)(inode).contains(event)
            ||| curr.dom().contains(inode) && watcher::changes(prev, curr)(inode).contains(event)
        },
{
    let created = watcher::creations(prev, curr)(inode);
    let removed = watcher::removals(prev, curr)(inode);
    let changed = watcher::changes(prev, curr)(inode);
    if !prev.contains_key(inode) {
        assert(created[0] == EventView::Create(curr[inode].path));
        assert(changed.len() == 0);
    } else {
        assert(created.len() == 0);
        let renamed = prev[inode].path != curr[inode].path;
        let written = prev[inode].modified != curr[inode].modified;
        if renamed {
            assert(changed[0] == EventView::Rename(prev[inode].path, curr[inode].path));
            if written {
                assert(changed[1] == EventView::Modify(curr[inode].path));
            }
        } else if written {
            assert(changed[0] == EventView::Modify(curr[inode].path));
        }
    }
    if !curr.contains_key(inode) {
        assert(removed[0] == EventView::Remove(prev[inode].path));
    } else {
        assert(removed.len() == 0);
    }
}

/// Whether no two files of a scan stand under one path.
pub open spec fn distinct_paths(files: Map<u64, StatView>) -> bool {
    forall|i: u64, j: u64| #[trigger]
        files.contains_key(i) && #[trigger] files.contains_key(j) && i != j ==> files[i].path
            != files[j].path
}

/// No event is reported twice.
pub proof fn law_no_event_twice(
    events: Seq<EventView>,
    prev: Map<u64, StatView>,
    curr: Map<u64, StatView>,
)
    requires
        watcher::comparison(events, prev, curr),
        distinct_paths(prev),
        distinct_paths(curr),
    ensures
        events.no_duplicates(),
{
    let (created, removed, changed) = parts(events, prev, curr);
    let creations = watcher::creations(prev, curr);
    let removals = watcher::removals(prev, curr);
    let changes = watcher::changes(prev, curr);
    report::law_distinct(created, curr.dom(), creations);
    report::law_distinct(removed, prev.dom(), removals);
    assert forall|i: u64, j: u64| #[trigger]
        curr.dom().contains(i) && #[trigger] curr.dom().contains(j) && i != j implies report::apart(
        changes(i),
        changes(j),
    ) by {
        assert(curr.contains_key(i) && curr.contains_key(j));
    }
    report::law_distinct(changed, curr.dom(), changes);
    assert forall|i: int| 0 <= i < created.len() implies #[trigger] created[i] is Create by {
        report::law_member(created, curr.dom(), creations, created[i]);
        assert(created.contains(created[i]));
    }
    assert forall|i: int| 0 <= i < removed.len() implies #[trigger] removed[i] is Remove by {
        report::law_member(removed, prev.dom(), removals, removed[i]);
        assert(removed.contains(removed[i]));
    }
    assert forall|i: int| 0 <= i < changed.len() implies #[trigger] changed[i] is Rename
        || changed[i] is Modify by {
        report::law_member(changed, curr.dom(), changes, changed[i]);
        assert(changed.contains(changed[i]));
    }
}

/// A scan holds exactly the plain files that the walk came upon, each under its inode.
pub proof fn law_scan_files(walk: Seq<stat::FoundView>, inode: u64)
    ensures
        watcher::scan_of(walk).contains_key(inode) <==> exists|i: int|
            0 <= i < walk.len() && #[trigger] walk[i].stat.inode == inode
                && walk[i].stat.kind is TypeFile,
        watcher::scan_of(walk).contains_key(inode) ==> watcher::scan_of(walk)[inode].inode == inode,
    decreases walk.len(),
{
    if walk.len() > 0 {
        let rest = walk.drop_last();
        law_scan_files(rest, inode);
        let last = walk.last();
        if watcher::scan_of(rest).contains_key(inode) {
            let i = choose|i: int|
                0 <= i < rest.len() && #[trigger] rest[i].stat.inode == inode
                    && rest[i].stat.kind is TypeFile;
            assert(walk[i].stat.inode == inode);
        }
        if last.stat.inode == inode && last.stat.kind is TypeFile {
            assert(walk[walk.len() - 1].stat.inode == inode);
        }
        if exists|i: int|
            0 <= i < walk.len() && #[trigger] walk[i].stat.inode == inode
                && walk[i].stat.kind is TypeFile {
            let i = choose|i: int|
                0 <= i < walk.len() && #[trigger] walk[i].stat.inode == inode
                    && walk[i].stat.kind is TypeFile;
            if i < rest.len() {
                assert(rest[i].stat.inode == inode);
            }
        }
    }
}

/// The files that are there when paths are given to the watcher are not reported: after an
/// update, a comparison that finds the same as the first scan delivers nothing.
pub proof fn law_update_is_quiet(
    states: Seq<PollerView>,
    actions: Seq<Action>,
    paths: PathSet,
    first: Vec<Found>,
    second: Vec<Found>,
)
    requires
        states.len() == 5,
        actions.len() == 4,
        states[0].phase == Phase::Idle,
        watcher::transition(
            states[0],
            Input::Message(Control::Update(paths)),
            states[1],
            actions[0],
        ),
        watcher::transition(states[1], Input::Scanned(first), states[2], actions[1]),
        watcher::transition(states[2], Input::Tick, states[3], actions[2]),
        watcher::transition(states[3], Input::Scanned(second), states[4], actions[3]),
        stat::contents(first@) == stat::contents(second@),
    ensures
        !(actions[1] is Deliver),
        actions[3] matches Action::Deliver(events) && events@.len() == 0,
{
    match actions[3] {
        Action::Deliver(events) => {
            law_unchanged(event::contents(events@), states[2].prev);
        },
        _ => {},
    }
}

/// What was reported once is not reported again: a comparison that finds the same as the one
/// before delivers nothing.
pub proof fn law_reported_once(
    states: Seq<PollerView>,
    actions: Seq<Action>,
    first: Vec<Found>,
    second: Vec<Found>,
)
    requires
        states.len() == 5,
        actions.len() == 4,
        states[0].phase == Phase::Idle,
        watcher::transition(states[0], Input::Tick, states[1], actions[0]),
        watcher::transition(states[1], Input::Scanned(first), states[2], actions[1]),
        watcher::transition(states[2], Input::Tick, states[3], actions[2]),
        watcher::transition(states[3], Input::Scanned(second), states[4], actions[3]),
        stat::contents(first@) == stat::contents(second@),
    ensures
        actions[3] matches Action::Deliver(events) && events@.len() == 0,
{
    match actions[3] {
        Action::Deliver(events) => {
            law_unchanged(event::contents(events@), states[2].prev);
        },
        _ => {},
    }
}

/// Exactly the watched paths are scanned, and they are the ones that the last update has named.
pub proof fn law_scans_what_is_watched(
    pre: PollerView,
    input: Input,
    post: PollerView,
    action: Action,
)
    requires
        watcher::transition(pre, input, post, action),
    ensures
        action is Scan ==> watcher::asks_for_scan(action, post.paths),
        post.paths == match (pre.phase, input) {
            (Phase::Idle, Input::Message(Control::Update(paths))) => paths@,
            _ => pre.paths,
        },
{
}

/// A message to exit ends the loop, and nothing that comes after it has any effect.
pub proof fn law_exit_is_final(
    start: PollerView,
    end: PollerView,
    action: Action,
    input: Input,
    later: PollerView,
    answer: Action,
)
    requires
        start.phase == Phase::Idle,
        watcher::transition(start, Input::Message(Control::Exit), end, action),
        watcher::transition(end, input, later, answer),
    ensures
        action is Stop,
        later == end,
        answer is Refuse,
{
}

} // verus!
