//! What each step of the polling loop does with what it finds.
use vstd::prelude::*;

use crate::event;
use crate::event::{Event, EventView};
use crate::path;
use crate::path::PathSet;
use crate::report;
use crate::stat;
use crate::stat::Found;
use crate::watcher;
use crate::watcher::laws;
use crate::watcher::{Action, Control, FileStatMap, Input, Phase, PollerView, StatView};

verus! {

/// Whether a walk comes upon a plain file with this inode.
pub open spec fn has_file(walk: Seq<Found>, inode: u64) -> bool {
    exists|k: int|
        0 <= k < walk.len() && (#[trigger] walk[k]).stat.inode == inode
            && walk[k].stat.kind is TypeFile
}

/// Whether a find is a plain file, and the last plain file of its inode in a walk.
pub open spec fn last_file(walk: Seq<Found>, k: int) -> bool {
    &&& 0 <= k < walk.len()
    &&& walk[k].stat.kind is TypeFile
    &&& forall|i: int|
        k < i < walk.len() && (#[trigger] walk[i]).stat.kind is TypeFile ==> walk[i].stat.inode
            != walk[k].stat.inode
}

/// A scan holds a file just where the walk comes upon it.
pub proof fn lemma_has_file(walk: Seq<Found>, inode: u64)
    ensures
        watcher::scan_of(stat::contents(walk)).contains_key(inode) <==> has_file(walk, inode),
{
    let found = stat::contents(walk);
    laws::law_scan_files(found, inode);
    if has_file(walk, inode) {
        let k = choose|k: int|
            0 <= k < walk.len() && (#[trigger] walk[k]).stat.inode == inode
                && walk[k].stat.kind is TypeFile;
        assert(found[k].stat.inode == inode);
    }
    if watcher::scan_of(found).contains_key(inode) {
        let k = choose|k: int|
            0 <= k < found.len() && #[trigger] found[k].stat.inode == inode
                && found[k].stat.kind is TypeFile;
        assert(walk[k].stat.inode == inode);
    }
}

/// The last plain file of an inode.
proof fn lemma_last_file(walk: Seq<Found>, inode: u64) -> (k: int)
    requires
        has_file(walk, inode),
    ensures
        last_file(walk, k),
        walk[k].stat.inode == inode,
    decreases walk.len(),
{
    let last = walk.len() - 1;
    if walk[last].stat.inode == inode && walk[last].stat.kind is TypeFile {
        last
    } else {
        let rest = walk.drop_last();
        let i = choose|i: int|
            0 <= i < walk.len() && (#[trigger] walk[i]).stat.inode == inode
                && walk[i].stat.kind is TypeFile;
        assert(rest[i].stat.inode == inode);
        let k = lemma_last_file(rest, inode);
        assert forall|i: int|
            k < i < walk.len() && (#[trigger] walk[i]).stat.kind is TypeFile implies walk[i].stat.inode
            != walk[k].stat.inode by {
            if i < rest.len() {
                assert(rest[i] == walk[i]);
            }
        }
        k
    }
}

/// A scan keeps of a file what the last find of it says: its path, its inode, and the time of its
/// last change to the millisecond.
pub proof fn law_scan_keeps(walk: Seq<Found>, k: int)
    requires
        last_file(walk, k),
    ensures
        ({
            let files = watcher::scan_of(stat::contents(walk));
            let inode = walk[k].stat.inode;
            &&& files.contains_key(inode)
            &&& files[inode].path == walk[k].path@
            &&& files[inode].modified == walk[k].stat.modified
            &&& files[inode].inode == inode
        }),
    decreases walk.len(),
{
    let rest = walk.drop_last();
    let found = stat::contents(walk);
    assert(found.drop_last() =~= stat::contents(rest));
    assert(found.last() == walk.last()@);
    if k < rest.len() {
        assert forall|i: int|
            k < i < rest.len() && (#[trigger] rest[i]).stat.kind is TypeFile implies rest[i].stat.inode
            != rest[k].stat.inode by {
            assert(rest[i] == walk[i]);
        }
        law_scan_keeps(rest, k);
        assert(rest[k] == walk[k]);
        if walk[walk.len() - 1].stat.kind is TypeFile {
            assert(walk[walk.len() - 1].stat.inode != walk[k].stat.inode);
        }
    }
}

/// Whether events tell of the creation of each file that is in `curr` and not in `prev`, and of
/// nothing else.
pub open spec fn tells_creations(
    prev: FileStatMap,
    curr: FileStatMap,
    events: Seq<Event>,
) -> bool {
    &&& forall|inode: u64| #[trigger]
        curr@.contains_key(inode) && !prev@.contains_key(inode) ==> event::told(
            events,
            EventView::Create(curr@[inode].path@),
        )
    &&& forall|m: int|
        0 <= m < events.len() ==> (#[trigger] events[m] matches Event::Create(path) && exists|
            inode: u64,
        | #[trigger]
            curr@.contains_key(inode) && !prev@.contains_key(inode) && curr@[inode].path@ == path@)
}

/// Whether events tell of the removal of each file that is in `prev` and not in `curr`, and of
/// nothing else.
pub open spec fn tells_removals(prev: FileStatMap, curr: FileStatMap, events: Seq<Event>) -> bool {
    &&& forall|inode: u64| #[trigger]
        prev@.contains_key(inode) && !curr@.contains_key(inode) ==> event::told(
            events,
            EventView::Remove(prev@[inode].path@),
        )
    &&& forall|m: int|
        0 <= m < events.len() ==> (#[trigger] events[m] matches Event::Remove(path) && exists|
            inode: u64,
        | #[trigger]
            prev@.contains_key(inode) && !curr@.contains_key(inode) && prev@[inode].path@ == path@)
}

/// Whether events tell of the new name of each file that has another path in `curr` than in `prev`
/// and of the writing to each that has another time, and of nothing else.
pub open spec fn tells_changes(prev: FileStatMap, curr: FileStatMap, events: Seq<Event>) -> bool {
    &&& forall|inode: u64| #[trigger]
        curr@.contains_key(inode) && prev@.contains_key(inode) && prev@[inode].path@
            != curr@[inode].path@ ==> event::told(
            events,
            EventView::Rename(prev@[inode].path@, curr@[inode].path@),
        )
    &&& forall|inode: u64| #[trigger]
        curr@.contains_key(inode) && prev@.contains_key(inode) && prev@[inode].modified
            != curr@[inode].modified ==> event::told(
            events,
            EventView::Modify(curr@[inode].path@),
        )
    &&& forall|m: int|
        0 <= m < events.len() ==> match #[trigger] events[m] {
            Event::Rename(from, to) => exists|inode: u64| #[trigger]
                curr@.contains_key(inode) && prev@.contains_key(inode) && prev@[inode].path@
                    == from@ && curr@[inode].path@ == to@ && from@ != to@,
            Event::Modify(path) => exists|inode: u64| #[trigger]
                curr@.contains_key(inode) && prev@.contains_key(inode) && curr@[inode].path@
                    == path@ && prev@[inode].modified != curr@[inode].modified,
            _ => false,
        }
}

/// A table and its contents agree.
proof fn lemma_table(files: FileStatMap, inode: u64)
    ensures
        watcher::table(files).dom().contains(inode) <==> files@.contains_key(inode),
        files@.contains_key(inode) ==> watcher::table(files)[inode].path == files@[inode].path@
            && watcher::table(files)[inode].modified == files@[inode].modified,
{
}

/// Every file that is new is told of, and nothing else is.
pub proof fn law_tells_creations(prev: FileStatMap, curr: FileStatMap, events: Seq<Event>)
    requires
        report::reports(
            event::contents(events),
            watcher::table(curr).dom(),
            watcher::creations(watcher::table(prev), watcher::table(curr)),
        ),
    ensures
        tells_creations(prev, curr, events),
{
    let keys = watcher::table(curr).dom();
    let of = watcher::creations(watcher::table(prev), watcher::table(curr));
    let sent = event::contents(events);
    assert forall|inode: u64| #[trigger]
        curr@.contains_key(inode) && !prev@.contains_key(inode) implies event::told(
        events,
        EventView::Create(curr@[inode].path@),
    ) by {
        let what = EventView::Create(curr@[inode].path@);
        lemma_table(prev, inode);
        lemma_table(curr, inode);
        assert(of(inode)[0] == what);
        assert(keys.contains(inode) && of(inode).contains(what));
        report::law_member(sent, keys, of, what);
        event::law_contents(events, what);
    }
    assert forall|m: int| 0 <= m < events.len() implies (
    #[trigger] events[m] matches Event::Create(path) && exists|inode: u64| #[trigger]
        curr@.contains_key(inode) && !prev@.contains_key(inode) && curr@[inode].path@ == path@) by {
        assert(sent[m] == events[m]@);
        assert(sent.contains(sent[m]));
        report::law_member(sent, keys, of, sent[m]);
        let inode = choose|inode: u64| #[trigger]
            keys.contains(inode) && of(inode).contains(sent[m]);
        lemma_table(prev, inode);
        lemma_table(curr, inode);
        assert(curr@.contains_key(inode));
    }
}

/// Every file that is gone is told of, and nothing else is.
pub proof fn law_tells_removals(prev: FileStatMap, curr: FileStatMap, events: Seq<Event>)
    requires
        report::reports(
            event::contents(events),
            watcher::table(prev).dom(),
            watcher::removals(watcher::table(prev), watcher::table(curr)),
        ),
    ensures
        tells_removals(prev, curr, events),
{
    let keys = watcher::table(prev).dom();
    let of = watcher::removals(watcher::table(prev), watcher::table(curr));
    let sent = event::contents(events);
    assert forall|inode: u64| #[trigger]
        prev@.contains_key(inode) && !curr@.contains_key(inode) implies event::told(
        events,
        EventView::Remove(prev@[inode].path@),
    ) by {
        let what = EventView::Remove(prev@[inode].path@);
        lemma_table(prev, inode);
        lemma_table(curr, inode);
        assert(of(inode)[0] == what);
        assert(keys.contains(inode) && of(inode).contains(what));
        report::law_member(sent, keys, of, what);
        event::law_contents(events, what);
    }
    assert forall|m: int| 0 <= m < events.len() implies (
    #[trigger] events[m] matches Event::Remove(path) && exists|inode: u64| #[trigger]
        prev@.contains_key(inode) && !curr@.contains_key(inode) && prev@[inode].path@ == path@) by {
        assert(sent[m] == events[m]@);
        assert(sent.contains(sent[m]));
        report::law_member(sent, keys, of, sent[m]);
        let inode = choose|inode: u64| #[trigger]
            keys.contains(inode) && of(inode).contains(sent[m]);
        lemma_table(prev, inode);
        lemma_table(curr, inode);
        assert(prev@.contains_key(inode));
    }
}

/// Every new name and every writing is told of, and nothing else is.
pub proof fn law_tells_changes(prev: FileStatMap, curr: FileStatMap, events: Seq<Event>)
    requires
        report::reports(
            event::contents(events),
            watcher::table(curr).dom(),
            watcher::changes(watcher::table(prev), watcher::table(curr)),
        ),
    ensures
        tells_changes(prev, curr, events),
{
    let keys = watcher::table(curr).dom();
    let of = watcher::changes(watcher::table(prev), watcher::table(curr));
    let sent = event::contents(events);
    assert forall|inode: u64| #[trigger]
        curr@.contains_key(inode) && prev@.contains_key(inode) && prev@[inode].path@
            != curr@[inode].path@ implies event::told(
        events,
        EventView::Rename(prev@[inode].path@, curr@[inode].path@),
    ) by {
        let what = EventView::Rename(prev@[inode].path@, curr@[inode].path@);
        lemma_table(prev, inode);
        lemma_table(curr, inode);
        assert(of(inode)[0] == what);
        assert(keys.contains(inode) && of(inode).contains(what));
        report::law_member(sent, keys, of, what);
        event::law_contents(events, what);
    }
    assert forall|inode: u64| #[trigger]
        curr@.contains_key(inode) && prev@.contains_key(inode) && prev@[inode].modified
            != curr@[inode].modified implies event::told(
        events,
        EventView::Modify(curr@[inode].path@),
    ) by {
        let what = EventView::Modify(curr@[inode].path@);
        lemma_table(prev, inode);
        lemma_table(curr, inode);
        assert(of(inode)[of(inode).len() - 1] == what);
        assert(keys.contains(inode) && of(inode).contains(what));
        report::law_member(sent, keys, of, what);
        event::law_contents(events, what);
    }
    assert forall|m: int| 0 <= m < events.len() implies match #[trigger] events[m] {
        Event::Rename(from, to) => exists|inode: u64| #[trigger]
            curr@.contains_key(inode) && prev@.contains_key(inode) && prev@[inode].path@ == from@
                && curr@[inode].path@ == to@ && from@ != to@,
        Event::Modify(path) => exists|inode: u64| #[trigger]
            curr@.contains_key(inode) && prev@.contains_key(inode) && curr@[inode].path@ == path@
                && prev@[inode].modified != curr@[inode].modified,
        _ => false,
    } by {
        assert(sent[m] == events[m]@);
        assert(sent.contains(sent[m]));
        report::law_member(sent, keys, of, sent[m]);
        let inode = choose|inode: u64| #[trigger]
            keys.contains(inode) && of(inode).contains(sent[m]);
        lemma_table(prev, inode);
        lemma_table(curr, inode);
        assert(curr@.contains_key(inode));
        assert(of(inode).len() > 0);
    }
}

/// Whether `first` and `second` are two scans in a row, each of them what the loop heard, and
/// `action` the answer to the second: the first was made when paths were given or for a comparison,
/// and between the two a period has passed.
pub open spec fn in_a_row(
    states: Seq<PollerView>,
    actions: Seq<Action>,
    first: Vec<Found>,
    second: Vec<Found>,
) -> bool {
    &&& states.len() == 4
    &&& actions.len() == 3
    &&& states[0].phase == Phase::Baseline || states[0].phase == Phase::Comparing
    &&& watcher::transition(states[0], Input::Scanned(first), states[1], actions[0])
    &&& watcher::transition(states[1], Input::Tick, states[2], actions[1])
    &&& watcher::transition(states[2], Input::Scanned(second), states[3], actions[2])
}

/// What a comparison of two walks may tell.
pub open spec fn is_change(first: Seq<Found>, second: Seq<Found>, event: Event) -> bool {
    match event {
        Event::Create(path) => exists|k: int| #[trigger]
            last_file(second, k) && !has_file(first, second[k].stat.inode) && second[k].path@
                == path@,
        Event::Remove(path) => exists|i: int| #[trigger]
            last_file(first, i) && !has_file(second, first[i].stat.inode) && first[i].path@
                == path@,
        Event::Rename(from, to) => exists|i: int, k: int| #[trigger]
            last_file(first, i) && #[trigger] last_file(second, k) && first[i].stat.inode
                == second[k].stat.inode && first[i].path@ == from@ && second[k].path@ == to@
                && from@ != to@,
        Event::Modify(path) => exists|i: int, k: int| #[trigger]
            last_file(first, i) && #[trigger] last_file(second, k) && first[i].stat.inode
                == second[k].stat.inode && second[k].path@ == path@ && first[i].stat.modified
                != second[k].stat.modified,
    }
}

proof fn lemma_told(
    events: Vec<Event>,
    prev: Map<u64, StatView>,
    curr: Map<u64, StatView>,
    inode: u64,
    what: EventView,
)
    requires
        watcher::comparison(event::contents(events@), prev, curr),
        laws::has_event(prev, curr, inode, what),
    ensures
        event::told(events@, what),
{
    laws::law_every_change(event::contents(events@), prev, curr, what);
    event::law_contents(events@, what);
}

/// Every difference between two walks in a row is told: a file that only the second came upon as
/// created, one that only the first came upon as removed, one with another path as renamed, and one
/// with another time of its last change as modified.
pub proof fn law_tells_every_change(
    states: Seq<PollerView>,
    actions: Seq<Action>,
    first: Vec<Found>,
    second: Vec<Found>,
)
    requires
        in_a_row(states, actions, first, second),
    ensures
        actions[2] matches Action::Deliver(events) && {
            &&& forall|k: int| #[trigger]
                last_file(second@, k) && !has_file(first@, second@[k].stat.inode) ==> event::told(
                    events@,
                    EventView::Create(second@[k].path@),
                )
            &&& forall|i: int| #[trigger]
                last_file(first@, i) && !has_file(second@, first@[i].stat.inode) ==> event::told(
                    events@,
                    EventView::Remove(first@[i].path@),
                )
            &&& forall|i: int, k: int| #[trigger]
                last_file(first@, i) && #[trigger] last_file(second@, k) && first@[i].stat.inode
                    == second@[k].stat.inode && first@[i].path@ != second@[k].path@ ==> event::told(
                    events@,
                    EventView::Rename(first@[i].path@, second@[k].path@),
                )
            &&& forall|i: int, k: int| #[trigger]
                last_file(first@, i) && #[trigger] last_file(second@, k) && first@[i].stat.inode
                    == second@[k].stat.inode && first@[i].stat.modified != second@[k].stat.modified
                    ==> event::told(events@, EventView::Modify(second@[k].path@))
        },
{
    let prev = watcher::scan_of(stat::contents(first@));
    let curr = watcher::scan_of(stat::contents(second@));
    match actions[2] {
        Action::Deliver(events) => {
            assert forall|k: int| #[trigger]
                last_file(second@, k) && !has_file(first@, second@[k].stat.inode) implies event::told(
                events@,
                EventView::Create(second@[k].path@),
            ) by {
                let inode = second@[k].stat.inode;
                law_scan_keeps(second@, k);
                lemma_has_file(first@, inode);
                lemma_told(events, prev, curr, inode, EventView::Create(second@[k].path@));
            }
            assert forall|i: int| #[trigger]
                last_file(first@, i) && !has_file(second@, first@[i].stat.inode) implies event::told(
                events@,
                EventView::Remove(first@[i].path@),
            ) by {
                let inode = first@[i].stat.inode;
                law_scan_keeps(first@, i);
                lemma_has_file(second@, inode);
                lemma_told(events, prev, curr, inode, EventView::Remove(first@[i].path@));
            }
            assert forall|i: int, k: int| #[trigger]
                last_file(first@, i) && #[trigger] last_file(second@, k) && first@[i].stat.inode
                    == second@[k].stat.inode && first@[i].path@
                    != second@[k].path@ implies event::told(
                events@,
                EventView::Rename(first@[i].path@, second@[k].path@),
            ) by {
                law_scan_keeps(first@, i);
                law_scan_keeps(second@, k);
                lemma_told(
                    events,
                    prev,
                    curr,
                    first@[i].stat.inode,
                    EventView::Rename(first@[i].path@, second@[k].path@),
                );
            }
            assert forall|i: int, k: int| #[trigger]
                last_file(first@, i) && #[trigger] last_file(second@, k) && first@[i].stat.inode
                    == second@[k].stat.inode && first@[i].stat.modified
                    != second@[k].stat.modified implies event::told(
                events@,
                EventView::Modify(second@[k].path@),
            ) by {
                law_scan_keeps(first@, i);
                law_scan_keeps(second@, k);
                lemma_told(
                    events,
                    prev,
                    curr,
                    first@[i].stat.inode,
                    EventView::Modify(second@[k].path@),
                );
            }
        },
        _ => {},
    }
}

/// Nothing is told that is no difference between two walks in a row.
pub proof fn law_tells_nothing_else(
    states: Seq<PollerView>,
    actions: Seq<Action>,
    first: Vec<Found>,
    second: Vec<Found>,
)
    requires
        in_a_row(states, actions, first, second),
    ensures
        actions[2] matches Action::Deliver(events) && forall|m: int|
            0 <= m < events@.len() ==> is_change(first@, second@, #[trigger] events@[m]),
{
    let prev = watcher::scan_of(stat::contents(first@));
    let curr = watcher::scan_of(stat::contents(second@));
    match actions[2] {
        Action::Deliver(events) => {
            let sent = event::contents(events@);
            assert forall|m: int| 0 <= m < events@.len() implies is_change(
                first@,
                second@,
                #[trigger] events@[m],
            ) by {
                assert(sent[m] == events@[m]@);
                assert(sent.contains(sent[m]));
                laws::law_every_change(sent, prev, curr, sent[m]);
                let inode = choose|inode: u64| #[trigger]
                    laws::has_event(prev, curr, inode, sent[m]);
                lemma_has_file(first@, inode);
                lemma_has_file(second@, inode);
                if prev.contains_key(inode) {
                    let i = lemma_last_file(first@, inode);
                    law_scan_keeps(first@, i);
                    if curr.contains_key(inode) {
                        let k = lemma_last_file(second@, inode);
                        law_scan_keeps(second@, k);
                        assert(last_file(first@, i) && last_file(second@, k));
                    } else {
                        assert(last_file(first@, i));
                    }
                } else {
                    let k = lemma_last_file(second@, inode);
                    law_scan_keeps(second@, k);
                    assert(last_file(second@, k));
                }
            }
        },
        _ => {},
    }
}

/// The place of an event among the others: creations first, then removals, then changes.
pub open spec fn rank(event: Event) -> int {
    match event {
        Event::Create(_) => 0,
        Event::Remove(_) => 1,
        _ => 2,
    }
}

/// Creations are told before removals, and removals before changes; and of a file that has got
/// another name and was written to, the new name comes directly before the writing.
pub proof fn law_tells_in_order(
    states: Seq<PollerView>,
    actions: Seq<Action>,
    first: Vec<Found>,
    second: Vec<Found>,
)
    requires
        in_a_row(states, actions, first, second),
    ensures
        actions[2] matches Action::Deliver(events) && {
            &&& forall|m: int, n: int|
                0 <= m < n < events@.len() ==> rank(#[trigger] events@[m]) <= rank(
                    #[trigger] events@[n],
                )
            &&& forall|i: int, k: int| #[trigger]
                last_file(first@, i) && #[trigger] last_file(second@, k) && first@[i].stat.inode
                    == second@[k].stat.inode && first@[i].path@ != second@[k].path@
                    && first@[i].stat.modified != second@[k].stat.modified ==> exists|m: int|
                    0 <= m < events@.len() - 1 && event::tells(
                        #[trigger] events@[m],
                        EventView::Rename(first@[i].path@, second@[k].path@),
                    ) && event::tells(events@[m + 1], EventView::Modify(second@[k].path@))
        },
{
    let prev = watcher::scan_of(stat::contents(first@));
    let curr = watcher::scan_of(stat::contents(second@));
    match actions[2] {
        Action::Deliver(events) => {
            let sent = event::contents(events@);
            let (created, removed, changed) = laws::parts(sent, prev, curr);
            let changes = watcher::changes(prev, curr);
            assert forall|m: int| 0 <= m < sent.len() implies rank(#[trigger] events@[m]) == if m
                < created.len() {
                0int
            } else if m < created.len() + removed.len() {
                1
            } else {
                2
            } by {
                assert(sent[m] == events@[m]@);
                if m < created.len() {
                    assert(created.contains(created[m]));
                    report::law_member(
                        created,
                        curr.dom(),
                        watcher::creations(prev, curr),
                        created[m],
                    );
                } else if m < created.len() + removed.len() {
                    let own = removed[m - created.len()];
                    assert(removed.contains(own));
                    report::law_member(removed, prev.dom(), watcher::removals(prev, curr), own);
                } else {
                    let own = changed[m - created.len() - removed.len()];
                    assert(changed.contains(own));
                    report::law_member(changed, curr.dom(), changes, own);
                }
            }
            assert forall|i: int, k: int| #[trigger]
                last_file(first@, i) && #[trigger] last_file(second@, k) && first@[i].stat.inode
                    == second@[k].stat.inode && first@[i].path@ != second@[k].path@
                    && first@[i].stat.modified != second@[k].stat.modified implies exists|m: int|
                0 <= m < events@.len() - 1 && event::tells(
                    #[trigger] events@[m],
                    EventView::Rename(first@[i].path@, second@[k].path@),
                ) && event::tells(events@[m + 1], EventView::Modify(second@[k].path@)) by {
                let inode = first@[i].stat.inode;
                law_scan_keeps(first@, i);
                law_scan_keeps(second@, k);
                let at = report::law_piece(changed, curr.dom(), changes, inode);
                let own = changes(inode);
                assert(own.len() == 2);
                assert(changed.subrange(at, at + 2)[0] == own[0]);
                assert(changed.subrange(at, at + 2)[1] == own[1]);
                let m = created.len() + removed.len() + at;
                assert(sent[m] == own[0] && sent[m + 1] == own[1]);
                assert(0 <= m < m + 1 < sent.len());
                event::law_contents(
                    events@,
                    EventView::Rename(first@[i].path@, second@[k].path@),
                );
                event::law_contents(events@, EventView::Modify(second@[k].path@));
                assert(event::tells(
                    events@[m],
                    EventView::Rename(first@[i].path@, second@[k].path@),
                ));
                assert(event::tells(events@[m + 1], EventView::Modify(second@[k].path@)));
            }
        },
        _ => {},
    }
}

/// Whether no two files that a walk came upon stand under one path.
pub open spec fn names_differ(walk: Seq<Found>) -> bool {
    forall|i: int, k: int| #[trigger]
        last_file(walk, i) && #[trigger] last_file(walk, k) && i != k ==> walk[i].path@
            != walk[k].path@
}

proof fn lemma_names_differ(walk: Seq<Found>)
    requires
        names_differ(walk),
    ensures
        laws::distinct_paths(watcher::scan_of(stat::contents(walk))),
{
    let files = watcher::scan_of(stat::contents(walk));
    assert forall|i: u64, j: u64| #[trigger]
        files.contains_key(i) && #[trigger] files.contains_key(j) && i != j implies files[i].path
        != files[j].path by {
        lemma_has_file(walk, i);
        lemma_has_file(walk, j);
        let a = lemma_last_file(walk, i);
        let b = lemma_last_file(walk, j);
        law_scan_keeps(walk, a);
        law_scan_keeps(walk, b);
        assert(last_file(walk, a) && last_file(walk, b));
    }
}

/// Nothing is told twice.
pub proof fn law_tells_once(
    states: Seq<PollerView>,
    actions: Seq<Action>,
    first: Vec<Found>,
    second: Vec<Found>,
    what: EventView,
)
    requires
        in_a_row(states, actions, first, second),
        names_differ(first@),
        names_differ(second@),
    ensures
        actions[2] matches Action::Deliver(events) && forall|m: int, n: int|
            0 <= m < n < events@.len() ==> !(event::tells(#[trigger] events@[m], what)
                && event::tells(#[trigger] events@[n], what)),
{
    let prev = watcher::scan_of(stat::contents(first@));
    let curr = watcher::scan_of(stat::contents(second@));
    lemma_names_differ(first@);
    lemma_names_differ(second@);
    match actions[2] {
        Action::Deliver(events) => {
            let sent = event::contents(events@);
            laws::law_no_event_twice(sent, prev, curr);
            event::law_contents(events@, what);
            assert forall|m: int, n: int| 0 <= m < n < events@.len() implies !(event::tells(
                #[trigger] events@[m],
                what,
            ) && event::tells(#[trigger] events@[n], what)) by {
                assert(sent[m] != sent[n]);
            }
        },
        _ => {},
    }
}

/// When paths are given to the loop they are what is watched from then on, and all of them are
/// scanned. What that scan finds is no news.
pub proof fn law_update(
    states: Seq<PollerView>,
    actions: Seq<Action>,
    paths: PathSet,
    walk: Vec<Found>,
)
    requires
        states.len() == 3,
        actions.len() == 2,
        states[0].phase == Phase::Idle,
        watcher::transition(
            states[0],
            Input::Message(Control::Update(paths)),
            states[1],
            actions[0],
        ),
        watcher::transition(states[1], Input::Scanned(walk), states[2], actions[1]),
    ensures
        actions[0] matches Action::Scan(list) && path::lists(list@, paths@),
        actions[1] is Select,
        states[2].paths == paths@,
        states[2].phase == Phase::Idle,
{
    match actions[0] {
        Action::Scan(list) => {
            path::law_lists(list@, paths@);
        },
        _ => {},
    }
}

/// In every period all watched paths are scanned, and what is found is compared and told.
pub proof fn law_period(states: Seq<PollerView>, actions: Seq<Action>, walk: Vec<Found>)
    requires
        states.len() == 3,
        actions.len() == 2,
        states[0].phase == Phase::Idle,
        watcher::transition(states[0], Input::Tick, states[1], actions[0]),
        watcher::transition(states[1], Input::Scanned(walk), states[2], actions[1]),
    ensures
        actions[0] matches Action::Scan(list) && path::lists(list@, states[0].paths),
        actions[1] is Deliver,
        states[2].paths == states[0].paths,
        states[2].phase == Phase::Idle,
{
    match actions[0] {
        Action::Scan(list) => {
            path::law_lists(list@, states[0].paths);
        },
        _ => {},
    }
}

/// Whether `input` is what the loop waits for in this phase.
pub open spec fn awaited(phase: Phase, input: Input) -> bool {
    match phase {
        Phase::Idle => input is Message || input is Tick,
        Phase::Baseline => input is Scanned,
        Phase::Comparing => input is Scanned,
        Phase::Stopped => false,
    }
}

/// The loop refuses an input just when it does not wait for it, and then nothing changes.
pub proof fn law_refusal(pre: PollerView, input: Input, post: PollerView, action: Action)
    requires
        watcher::transition(pre, input, post, action),
    ensures
        action is Refuse <==> !awaited(pre.phase, input),
        action is Refuse ==> post == pre,
{
}

} // verus!
