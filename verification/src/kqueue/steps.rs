//! What each step of the loop does with what it hears.
use vstd::prelude::*;

use crate::event;
use crate::event::{Event, EventView};
use crate::kqueue::flags::{EVFILT_VNODE, NOTE_DELETE, NOTE_RENAME, NOTE_WRITE};
use crate::kqueue::internal;
use crate::kqueue::internal::{Ignored, InternalView, Opened, OpenedView};
use crate::kqueue::kernel;
use crate::kqueue::kernel::kevent;
use crate::kqueue::laws;
use crate::kqueue::queue;
use crate::kqueue::queue::{timespec, FileHandler, KQueue};
use crate::kqueue::watcher;
use crate::kqueue::watcher::{Action, Control, Input, Phase, WatcherView};
use crate::normal;
use crate::normal::{DOT, SEPARATOR};
use crate::path::Path;
use crate::report;
use crate::stat;
use crate::stat::Found;

verus! {

/// The loop takes every input that is not from the kernel, and from the kernel every answer that
/// fits its buffer, and the answer that it has failed.
pub proof fn law_takes_every_answer(input: Input, n: i32, events: Vec<kevent>)
    requires
        n == -1 || 0 <= n <= events@.len(),
    ensures
        watcher::plausible(Input::Kernel(n, events)),
        !(input is Kernel) ==> watcher::plausible(input),
{
}

/// A message to watch a path makes the loop open that path.
pub proof fn law_watch_opens(pre: WatcherView, path: Path, post: WatcherView, action: Action)
    requires
        pre.phase == Phase::Polling,
        watcher::transition(pre, Input::Message(Control::Add(path)), post, action),
    ensures
        action matches Action::Open(p) && p@ == path@,
        post == (WatcherView { phase: Phase::Opening, ..pre }),
{
}

/// Whether an action asks the kernel for news of each of the things, in this order, and of nothing
/// else: of writing, deleting and renaming.
pub open spec fn asks_for(action: Action, kq: KQueue, things: Seq<Opened>) -> bool {
    action matches Action::Register { call, changes, .. } && {
        &&& changes@.len() == things.len()
        &&& forall|k: int|
            0 <= k < things.len() ==> (#[trigger] changes@[k]).ident
                == things[k].handler.fd as u64 && changes@[k].filter == -4 && changes@[k].flags
                == 0x0021 && changes@[k].fflags == 0x0000_0023
        &&& call.kq == kq.fd
        &&& things.len() <= i32::MAX ==> call.nchanges == things.len()
        &&& call.nevents == 0
        &&& call.timeout is None
    }
}

/// Whether the tables `after` are the tables `before` with the things entered. Of two things with
/// one descriptor the later counts.
pub open spec fn entered(before: InternalView, things: Seq<Opened>, after: InternalView) -> bool {
    &&& forall|inode: u64| #[trigger]
        after.inodes.contains(inode) <==> before.inodes.contains(inode) || exists|k: int|
            0 <= k < things.len() && (#[trigger] things[k]).stat.inode == inode
    &&& forall|fd: i32| #[trigger]
        after.fds.contains_key(fd) <==> before.fds.contains_key(fd) || exists|k: int|
            0 <= k < things.len() && (#[trigger] things[k]).handler.fd == fd
    &&& forall|fd: i32| #[trigger]
        after.paths.contains_key(fd) <==> before.paths.contains_key(fd) || exists|k: int|
            0 <= k < things.len() && (#[trigger] things[k]).handler.fd == fd
    &&& forall|k: int|
        0 <= k < things.len() && (forall|i: int|
            k < i < things.len() ==> (#[trigger] things[i]).handler.fd != things[k].handler.fd)
            ==> {
            let known = after.paths[(#[trigger] things[k]).handler.fd];
            &&& known.path == things[k].path@
            &&& known.kind == things[k].stat.kind
            &&& known.modified == things[k].stat.modified
            &&& known.inode == things[k].stat.inode
        }
    &&& forall|fd: i32| #[trigger]
        before.paths.contains_key(fd) && (forall|k: int|
            0 <= k < things.len() ==> (#[trigger] things[k]).handler.fd != fd)
            ==> after.paths[fd] == before.paths[fd]
}

proof fn lemma_requests(
    pre: WatcherView,
    target: OpenedView,
    entries: Seq<OpenedView>,
    post: WatcherView,
    action: Action,
    things: Seq<Opened>,
)
    requires
        watcher::registers(pre, target, entries, post, action),
        InternalView::accepted(target, entries) == internal::contents(things),
    ensures
        asks_for(action, pre.queue, things),
{
    let accepted = InternalView::accepted(target, entries);
    match action {
        Action::Register { call, changes, .. } => {
            queue::law_call(pre.queue.fd, accepted.len() as usize, 0, None);
            assert forall|k: int| 0 <= k < things.len() implies (#[trigger] changes@[k]).ident
                == things[k].handler.fd as u64 && changes@[k].filter == -4 && changes@[k].flags
                == 0x0021 && changes@[k].fflags == 0x0000_0023 by {
                kernel::law_request(things[k].handler.fd);
                assert(changes@[k] == kernel::vnode_request(accepted[k].handler.fd));
            }
        },
        _ => {},
    }
}

spec fn has_inode(things: Seq<Opened>, inode: u64) -> bool {
    exists|k: int| 0 <= k < things.len() && (#[trigger] things[k]).stat.inode == inode
}

spec fn has_descriptor(things: Seq<Opened>, fd: i32) -> bool {
    exists|k: int| 0 <= k < things.len() && (#[trigger] things[k]).handler.fd == fd
}

/// One thing more has one inode and one descriptor more.
proof fn lemma_has_more(rest: Seq<Opened>, last: Opened, inode: u64, fd: i32)
    ensures
        has_inode(rest.push(last), inode) <==> has_inode(rest, inode) || last.stat.inode == inode,
        has_descriptor(rest.push(last), fd) <==> has_descriptor(rest, fd) || last.handler.fd == fd,
{
    let things = rest.push(last);
    assert(things[rest.len() as int] == last);
    if has_inode(rest, inode) {
        let k = choose|k: int| 0 <= k < rest.len() && (#[trigger] rest[k]).stat.inode == inode;
        assert(things[k].stat.inode == inode);
    }
    if has_inode(things, inode) {
        let k = choose|k: int| 0 <= k < things.len() && (#[trigger] things[k]).stat.inode == inode;
        if k < rest.len() {
            assert(rest[k].stat.inode == inode);
        }
    }
    if has_descriptor(rest, fd) {
        let k = choose|k: int| 0 <= k < rest.len() && (#[trigger] rest[k]).handler.fd == fd;
        assert(things[k].handler.fd == fd);
    }
    if has_descriptor(things, fd) {
        let k = choose|k: int| 0 <= k < things.len() && (#[trigger] things[k]).handler.fd == fd;
        if k < rest.len() {
            assert(rest[k].handler.fd == fd);
        }
    }
}

/// What the tables know of one inode and one descriptor when things have been entered.
proof fn lemma_entered_at(before: InternalView, things: Seq<Opened>, inode: u64, fd: i32)
    ensures
        ({
            let after = before.register_all(internal::contents(things));
            &&& after.stats == before.stats
            &&& after.inodes.contains(inode) <==> before.inodes.contains(inode) || has_inode(
                things,
                inode,
            )
            &&& after.fds.contains_key(fd) <==> before.fds.contains_key(fd) || has_descriptor(
                things,
                fd,
            )
            &&& after.paths.contains_key(fd) <==> before.paths.contains_key(fd) || has_descriptor(
                things,
                fd,
            )
            &&& !has_descriptor(things, fd) ==> after.paths[fd] == before.paths[fd]
        }),
    decreases things.len(),
{
    let all = internal::contents(things);
    if things.len() > 0 {
        let rest = things.drop_last();
        lemma_entered_at(before, rest, inode, fd);
        lemma_has_more(rest, things.last(), inode, fd);
        assert(rest.push(things.last()) =~= things);
        assert(all.drop_last() =~= internal::contents(rest));
        assert(all.last() == things.last()@);
    }
}

proof fn lemma_entered(before: InternalView, things: Seq<Opened>)
    ensures
        entered(before, things, before.register_all(internal::contents(things))),
        before.register_all(internal::contents(things)).stats == before.stats,
{
    let all = internal::contents(things);
    let after = before.register_all(all);
    lemma_entered_at(before, things, 0, 0);
    assert forall|inode: u64| #[trigger] after.inodes.contains(inode) <==> (
    before.inodes.contains(inode) || has_inode(things, inode)) by {
        lemma_entered_at(before, things, inode, 0);
    }
    assert forall|fd: i32| #[trigger] after.fds.contains_key(fd) <==> (before.fds.contains_key(fd)
        || has_descriptor(things, fd)) by {
        lemma_entered_at(before, things, 0, fd);
    }
    assert forall|fd: i32| #[trigger] after.paths.contains_key(fd) <==> (
    before.paths.contains_key(fd) || has_descriptor(things, fd)) by {
        lemma_entered_at(before, things, 0, fd);
    }
    assert forall|k: int|
        0 <= k < things.len() && (forall|i: int|
            k < i < things.len() ==> (#[trigger] things[i]).handler.fd
                != things[k].handler.fd) implies {
        let known = after.paths[(#[trigger] things[k]).handler.fd];
        &&& known.path == things[k].path@
        &&& known.kind == things[k].stat.kind
        &&& known.modified == things[k].stat.modified
        &&& known.inode == things[k].stat.inode
    } by {
        assert forall|i: int| k < i < all.len() implies (#[trigger] all[i]).handler.fd
            != all[k].handler.fd by {
            assert(all[i] == things[i]@);
        }
        laws::lemma_register_all_knows(before, all, k);
    }
    assert forall|fd: i32| #[trigger]
        before.paths.contains_key(fd) && (forall|k: int|
            0 <= k < things.len() ==> (#[trigger] things[k]).handler.fd
                != fd) implies after.paths[fd] == before.paths[fd] by {
        lemma_entered_at(before, things, 0, fd);
    }
}

/// Watching a directory is watching it and everything in it: the loop asks for what is in it, and
/// then asks the kernel for news of the directory and of every entry, however many there are. From
/// then on each of them is known by its own path and inode.
pub proof fn law_watch_directory(
    start: WatcherView,
    target: Opened,
    middle: WatcherView,
    first: Action,
    entries: Vec<Opened>,
    end: WatcherView,
    second: Action,
)
    requires
        start.phase == Phase::Opening,
        target.stat.kind is TypeDirectory,
        watcher::transition(start, Input::Opened(target), middle, first),
        watcher::transition(middle, Input::Entered(entries), end, second),
    ensures
        first matches Action::Enter(dir) && dir@ == target.path@,
        middle.tables == start.tables,
        asks_for(second, start.queue, seq![target] + entries@),
        entered(start.tables, seq![target] + entries@, end.tables),
        forall|dir: u64| #[trigger]
            end.tables.stats.contains_key(dir) <==> start.tables.stats.contains_key(dir) || dir
                == target.stat.inode,
        end.phase == Phase::Registering,
        end.queue == start.queue,
        end.entering is None,
        end.pending == start.pending,
{
    let things = seq![target] + entries@;
    assert(InternalView::accepted(target@, internal::contents(entries@))
        =~= internal::contents(things));
    lemma_requests(
        middle,
        target@,
        internal::contents(entries@),
        end,
        second,
        things,
    );
    lemma_entered(start.tables, things);
}

/// Watching a file is watching it alone.
pub proof fn law_watch_file(start: WatcherView, target: Opened, end: WatcherView, action: Action)
    requires
        start.phase == Phase::Opening,
        target.stat.kind is TypeFile,
        watcher::transition(start, Input::Opened(target), end, action),
    ensures
        asks_for(action, start.queue, seq![target]),
        entered(start.tables, seq![target], end.tables),
        end.tables.stats == start.tables.stats,
        end.phase == Phase::Registering,
        end.queue == start.queue,
        end.entering is None,
        end.pending == start.pending,
{
    assert(InternalView::accepted(target@, Seq::empty()) =~= internal::contents(seq![target]));
    lemma_requests(start, target@, Seq::empty(), end, action, seq![target]);
    lemma_entered(start.tables, seq![target]);
}

/// Of what is neither a file nor a directory nothing is asked and nothing is kept, and it is
/// closed at once.
pub proof fn law_watch_neither(
    start: WatcherView,
    target: Opened,
    end: WatcherView,
    action: Action,
)
    requires
        start.phase == Phase::Opening,
        !(target.stat.kind is TypeFile),
        !(target.stat.kind is TypeDirectory),
        watcher::transition(start, Input::Opened(target), end, action),
    ensures
        asks_for(action, start.queue, Seq::empty()),
        action matches Action::Register { closed, .. } && closed@ == seq![target.handler],
        end == (WatcherView { phase: Phase::Registering, entering: None, ..start }),
{
    assert(InternalView::accepted(target@, Seq::empty()) =~= internal::contents(Seq::empty()));
    lemma_requests(start, target@, Seq::empty(), end, action, Seq::empty());
    match action {
        Action::Register { closed, .. } => {
            assert(closed@ =~= seq![target.handler]);
        },
        _ => {},
    }
}

/// Without anything else to do, the loop waits for the kernel: for up to eight events, and no
/// longer than a tenth of a second.
pub proof fn law_waits(pre: WatcherView, input: Input, post: WatcherView, action: Action)
    requires
        pre.phase == Phase::Polling && input is Empty || pre.phase == Phase::Registering
            && input is Registered,
        watcher::transition(pre, input, post, action),
    ensures
        action matches Action::Wait(call) && {
            &&& call.kq == pre.queue.fd
            &&& call.nchanges == 0
            &&& call.nevents == 8
            &&& call.timeout == Some(timespec { tv_sec: 0, tv_nsec: 100_000_000 })
        },
        post == (WatcherView { phase: Phase::Waiting, ..pre }),
{
}

/// The events that are left when the loop turns to one: those behind it, in their order.
pub open spec fn behind(pre: WatcherView, input: Input) -> Seq<kevent> {
    match input {
        Input::Kernel(n, events) => events@.subrange(1, n as int),
        _ => pre.pending.skip(1),
    }
}

/// Whether an action sends one event to the client, and closes nothing.
pub open spec fn sends(action: Action, what: EventView) -> bool {
    action matches Action::Deliver { events, closed } && events@.len() == 1 && event::tells(
        events@[0],
        what,
    ) && closed is None
}

/// What the loop does when it turns to an event. It is about the descriptor in its low bits. A
/// file is reported as modified where it was written to, as removed where it was deleted, and is
/// located where it was renamed, in this order of precedence; a directory that was written to is
/// walked through; everything else is passed over. Whatever is done, exactly the events behind this
/// one are left, and of the tables nothing changes but that the handler of a removed file is gone.
pub proof fn law_turns_to_event(
    pre: WatcherView,
    input: Input,
    post: WatcherView,
    action: Action,
    ev: kevent,
)
    requires
        watcher::transition(pre, input, post, action),
        laws::next_event(pre, input) == Some(ev),
    ensures
        post.pending == behind(pre, input),
        post.queue == pre.queue,
        post.entering == pre.entering,
        post.moved == pre.moved,
        post.tables.paths == pre.tables.paths,
        post.tables.inodes == pre.tables.inodes,
        post.tables.stats == pre.tables.stats,
        ({
            let fd = ev.ident as i32;
            let known = pre.tables.paths[fd];
            let written = ev.fflags & NOTE_WRITE != 0;
            let deleted = ev.fflags & NOTE_DELETE != 0;
            let renamed = ev.fflags & NOTE_RENAME != 0;
            let removed = known.kind is TypeFile && !written && deleted;
            if !pre.tables.paths.contains_key(fd) {
                &&& action == Action::Skip(Ignored::Unregistered)
                &&& post.phase == Phase::Dispatching
                &&& post.tables.fds == pre.tables.fds
            } else if ev.filter & EVFILT_VNODE == 0 {
                &&& action == Action::Skip(Ignored::NotVnode)
                &&& post.phase == Phase::Dispatching
                &&& post.tables.fds == pre.tables.fds
            } else {
                &&& post.tables.fds == if removed {
                    pre.tables.fds.remove(fd)
                } else {
                    pre.tables.fds
                }
                &&& known.kind is TypeFile && written ==> sends(
                    action,
                    EventView::Modify(known.path),
                ) && post.phase == Phase::Dispatching
                &&& removed ==> {
                    &&& action matches Action::Deliver { events, closed } && events@.len() == 1
                        && event::tells(events@[0], EventView::Remove(known.path)) && closed
                        == pre.tables.fds.get(fd)
                    &&& post.phase == Phase::Dispatching
                }
                &&& known.kind is TypeFile && !written && !deleted && renamed ==> action
                    == Action::Locate(fd) && post.phase == Phase::Locating(fd)
                &&& known.kind is TypeFile && !written && !deleted && !renamed ==> action
                    == Action::Skip(Ignored::Uninteresting) && post.phase == Phase::Dispatching
                &&& known.kind is TypeDirectory && written ==> {
                    &&& action matches Action::Scan(dir) && dir@ == known.path
                    &&& post.phase == Phase::Scanning(known.inode)
                }
                &&& known.kind is TypeDirectory && !written ==> action == Action::Skip(
                    Ignored::Uninteresting,
                ) && post.phase == Phase::Dispatching
                &&& !(known.kind is TypeFile) && !(known.kind is TypeDirectory) ==> action
                    == Action::Skip(Ignored::NotFileOrDirectory) && post.phase
                    == Phase::Dispatching
            }
        }),
{
    match input {
        Input::Kernel(n, events) => {
            assert(events@.take(n as int).skip(1) =~= events@.subrange(1, n as int));
            assert(events@.take(n as int)[0] == events@[0]);
        },
        _ => {},
    }
    match action {
        Action::Deliver { events, .. } => {
            assert(event::contents(events@).len() == 1);
            assert(event::contents(events@)[0] == events@[0]@);
        },
        _ => {},
    }
}

/// What is left of the events does not change unless the loop turns to one of them or the kernel
/// hands over others.
pub proof fn law_pending_is_kept(pre: WatcherView, input: Input, post: WatcherView, action: Action)
    requires
        watcher::transition(pre, input, post, action),
        laws::next_event(pre, input) is None,
        !(pre.phase == Phase::Waiting && input is Kernel),
    ensures
        post.pending == pre.pending,
{
}

/// Whether the loop is still about the events that it has.
pub open spec fn busy(phase: Phase) -> bool {
    phase is Dispatching || phase is Locating || phase is Inspecting || phase is Scanning
}

/// The loop does not look into its mailbox, and does not do anything else, before it has turned to
/// every event that the kernel has handed over.
pub proof fn law_no_event_is_left(pre: WatcherView, input: Input, post: WatcherView, action: Action)
    requires
        busy(pre.phase) || pre.pending.len() == 0,
        watcher::plausible(input),
        watcher::transition(pre, input, post, action),
    ensures
        busy(post.phase) || post.pending.len() == 0,
        action is Poll ==> post.pending.len() == 0 && post.phase == Phase::Polling,
        action is Wait ==> post.pending.len() == 0,
{
}

/// The events that the steps of a run from `i` up to `j` turn to, in this order.
pub open spec fn turned_to(
    states: Seq<WatcherView>,
    inputs: Seq<Input>,
    i: int,
    j: int,
) -> Seq<kevent>
    decreases j - i,
{
    if i >= j {
        Seq::empty()
    } else {
        match laws::next_event(states[j - 1], inputs[j - 1]) {
            Some(ev) => turned_to(states, inputs, i, j - 1).push(ev),
            None => turned_to(states, inputs, i, j - 1),
        }
    }
}

/// Every event that the kernel hands over is turned to, once and in order: at any time before the
/// kernel's next answer, the events that were turned to and those that are left make up what the
/// kernel has handed over, and none is left as soon as the loop is about anything else.
pub proof fn law_whole_batch(
    states: Seq<WatcherView>,
    inputs: Seq<Input>,
    actions: Seq<Action>,
    i: int,
    j: int,
    n: i32,
    events: Vec<kevent>,
)
    requires
        laws::is_run(states, inputs, actions),
        0 <= i < j <= inputs.len(),
        states[i].phase == Phase::Waiting,
        inputs[i] == Input::Kernel(n, events),
        0 <= n <= events@.len(),
        forall|k: int|
            #![trigger inputs[k]]
            i < k < j ==> !(states[k].phase == Phase::Waiting && inputs[k] is Kernel),
    ensures
        turned_to(states, inputs, i, j) + states[j].pending == events@.take(n as int),
        !busy(states[j].phase) ==> turned_to(states, inputs, i, j) == events@.take(n as int),
        actions[j - 1] is Poll ==> turned_to(states, inputs, i, j) == events@.take(n as int),
    decreases j - i,
{
    let before = turned_to(states, inputs, i, j - 1);
    let pre = states[j - 1];
    let post = states[j - 1 + 1];
    let input = inputs[j - 1];
    let action = actions[j - 1];
    assert(watcher::transition(pre, input, post, action));
    if j == i + 1 {
        assert(before =~= Seq::empty());
        if n > 0 {
            law_turns_to_event(pre, input, post, action, events@[0]);
            assert(before.push(events@[0]) + post.pending =~= events@.take(n as int));
        } else {
            assert(events@.take(0) =~= Seq::empty());
            assert(post.pending =~= Seq::empty());
            assert(before + post.pending =~= events@.take(n as int));
        }
    } else {
        law_whole_batch(states, inputs, actions, i, j - 1, n, events);
        match laws::next_event(pre, input) {
            Some(ev) => {
                assert(pre.pending.len() > 0);
                law_turns_to_event(pre, input, post, action, ev);
                assert(before.push(ev) + post.pending =~= before + pre.pending);
            },
            None => {
                law_pending_is_kept(pre, input, post, action);
            },
        }
        if !busy(pre.phase) {
            assert(pre.pending.len() == 0) by {
                assert((before + pre.pending).len() == before.len() + pre.pending.len());
            }
        }
    }
    if post.pending.len() == 0 {
        assert(turned_to(states, inputs, i, j) + post.pending =~= turned_to(states, inputs, i, j));
    }
}

/// A renamed file is looked for in the directory that its new name says: that of `dir/name` is
/// `dir`, and that of `/name` the root.
pub proof fn law_located(
    pre: WatcherView,
    name: Path,
    post: WatcherView,
    action: Action,
    fd: i32,
    dir: Seq<u8>,
    last: Seq<u8>,
)
    requires
        pre.phase == Phase::Locating(fd),
        watcher::transition(pre, Input::Located(name), post, action),
        !last.contains(SEPARATOR),
        last != seq![DOT, DOT],
    ensures
        action is Inspect,
        dir.len() > 0 && name@ == dir + seq![SEPARATOR] + last ==> (action matches Action::Inspect(
            d,
        ) && d@ == dir),
        name@ == seq![SEPARATOR] + last ==> (action matches Action::Inspect(d) && d@
            == seq![SEPARATOR]),
        name@ == last ==> (action matches Action::Inspect(d) && d@ == seq![DOT]),
        post == (WatcherView { phase: Phase::Inspecting(fd), moved: Some(name@), ..pre }),
{
    normal::law_directory(dir, last);
}

/// A renamed file is reported under both names where the directory that it is in now has been
/// seen, and as removed where it has not.
pub proof fn law_inspected(
    pre: WatcherView,
    inode: u64,
    post: WatcherView,
    action: Action,
    fd: i32,
    name: Seq<u8>,
)
    requires
        pre.phase == Phase::Inspecting(fd),
        pre.moved == Some(name),
        watcher::transition(pre, Input::Inspected(inode), post, action),
    ensures
        pre.tables.inodes.contains(inode) ==> sends(
            action,
            EventView::Rename(pre.tables.paths[fd].path, name),
        ),
        !pre.tables.inodes.contains(inode) ==> sends(
            action,
            EventView::Remove(pre.tables.paths[fd].path),
        ),
        post == (WatcherView { phase: Phase::Dispatching, moved: None, ..pre }),
{
    match action {
        Action::Deliver { events, .. } => {
            assert(event::contents(events@).len() == 1);
            assert(event::contents(events@)[0] == events@[0]@);
        },
        _ => {},
    }
}

/// The loop ends with everything closed that is open: each handler once, and the queue.
pub proof fn law_stop_closes_all(
    pre: WatcherView,
    input: Input,
    post: WatcherView,
    closed: Vec<FileHandler>,
    kq: KQueue,
)
    requires
        watcher::transition(pre, input, post, Action::Stop { closed, queue: kq }),
    ensures
        kq == pre.queue,
        forall|fd: i32| #[trigger]
            pre.tables.fds.contains_key(fd) ==> exists|i: int|
                0 <= i < closed@.len() && (#[trigger] closed@[i]).fd == fd,
        forall|i: int|
            0 <= i < closed@.len() ==> pre.tables.fds.contains_key((#[trigger] closed@[i]).fd),
        forall|i: int, j: int|
            0 <= i < j < closed@.len() ==> (#[trigger] closed@[i]).fd != (#[trigger] closed@[j]).fd,
        post.phase == Phase::Stopped,
        post.tables.fds == Map::<i32, FileHandler>::empty(),
{
    assert forall|fd: i32| #[trigger] pre.tables.fds.contains_key(fd) implies exists|i: int|
        0 <= i < closed@.len() && (#[trigger] closed@[i]).fd == fd by {
        let handler = FileHandler { fd };
        assert(closed@.contains(handler));
        let i = choose|i: int| 0 <= i < closed@.len() && closed@[i] == handler;
        assert(closed@[i].fd == fd);
    }
    assert forall|i: int| 0 <= i < closed@.len() implies pre.tables.fds.contains_key(
        (#[trigger] closed@[i]).fd,
    ) by {
        assert(closed@.contains(closed@[i]));
    }
    assert forall|i: int, j: int| 0 <= i < j < closed@.len() implies (#[trigger] closed@[i]).fd != (
    #[trigger] closed@[j]).fd by {
        assert(closed@[i] != closed@[j]);
    }
}

/// When no event is left, or the kernel had none, the loop looks into its mailbox.
pub proof fn law_polls_again(pre: WatcherView, input: Input, post: WatcherView, action: Action)
    requires
        match (pre.phase, input) {
            (Phase::Waiting, Input::Kernel(n, _)) => n == 0,
            (Phase::Dispatching, Input::Done) => pre.pending.len() == 0,
            _ => false,
        },
        watcher::transition(pre, input, post, action),
    ensures
        action is Poll,
        post == (WatcherView { phase: Phase::Polling, pending: Seq::empty(), ..pre }),
{
    match input {
        Input::Kernel(n, events) => {
            assert(events@.take(0) =~= Seq::empty());
        },
        _ => {
            assert(pre.pending =~= Seq::empty());
        },
    }
}

/// Whether a walk comes upon this inode.
pub open spec fn came_upon(walk: Seq<Found>, inode: u64) -> bool {
    exists|k: int| 0 <= k < walk.len() && (#[trigger] walk[k]).stat.inode == inode
}

/// Whether a find is the last of its inode in a walk.
pub open spec fn latest(walk: Seq<Found>, k: int) -> bool {
    &&& 0 <= k < walk.len()
    &&& forall|i: int|
        k < i < walk.len() ==> (#[trigger] walk[i]).stat.inode != walk[k].stat.inode
}

/// The last find of an inode.
proof fn lemma_latest(walk: Seq<Found>, inode: u64) -> (k: int)
    requires
        came_upon(walk, inode),
    ensures
        latest(walk, k),
        walk[k].stat.inode == inode,
    decreases walk.len(),
{
    let last = walk.len() - 1;
    if walk[last].stat.inode == inode {
        last
    } else {
        let rest = walk.drop_last();
        let i = choose|i: int| 0 <= i < walk.len() && (#[trigger] walk[i]).stat.inode == inode;
        assert(rest[i].stat.inode == inode);
        let k = lemma_latest(rest, inode);
        assert forall|i: int| k < i < walk.len() implies (#[trigger] walk[i]).stat.inode
            != walk[k].stat.inode by {
            if i < rest.len() {
                assert(rest[i] == walk[i]);
            }
        }
        k
    }
}

/// The names of a walk are those of the last finds.
proof fn lemma_names_latest(walk: Seq<Found>, k: int)
    requires
        latest(walk, k),
    ensures
        internal::names(stat::contents(walk)).contains_key(walk[k].stat.inode),
        internal::names(stat::contents(walk))[walk[k].stat.inode] == walk[k].path@,
    decreases walk.len(),
{
    let rest = walk.drop_last();
    let found = stat::contents(walk);
    assert(found.drop_last() =~= stat::contents(rest));
    assert(found.last() == walk.last()@);
    if k < rest.len() {
        assert forall|i: int| k < i < rest.len() implies (#[trigger] rest[i]).stat.inode
            != rest[k].stat.inode by {
            assert(rest[i] == walk[i]);
        }
        lemma_names_latest(rest, k);
        assert(walk[walk.len() - 1].stat.inode != walk[k].stat.inode);
    }
}

proof fn lemma_came_upon(walk: Seq<Found>, inode: u64)
    ensures
        internal::names(stat::contents(walk)).contains_key(inode) <==> came_upon(walk, inode),
{
    let found = stat::contents(walk);
    internal::lemma_names_dom(found, inode);
    if came_upon(walk, inode) {
        let k = choose|k: int| 0 <= k < walk.len() && (#[trigger] walk[k]).stat.inode == inode;
        assert(found[k].stat.inode == inode);
    }
    if internal::names(found).contains_key(inode) {
        let k = choose|k: int| 0 <= k < found.len() && (#[trigger] found[k]).stat.inode == inode;
        assert(walk[k].stat.inode == inode);
    }
}

/// A walk through a directory that was added reports everything that has not been seen before, and
/// nothing else: one creation for each new inode, with the path of its last find. From then on all
/// that the walk came upon has been seen.
pub proof fn law_scanned(
    pre: WatcherView,
    walk: Vec<Found>,
    post: WatcherView,
    action: Action,
    dir: u64,
    new: Set<u64>,
)
    requires
        pre.phase == Phase::Scanning(dir),
        pre.tables.stats.contains_key(dir),
        watcher::transition(pre, Input::Scanned(walk), post, action),
        forall|inode: u64| #[trigger]
            new.contains(inode) <==> came_upon(walk@, inode) && !pre.tables.inodes.contains(inode),
    ensures
        action matches Action::Deliver { events, closed } && {
            &&& closed is None
            &&& forall|k: int| #[trigger]
                latest(walk@, k) && new.contains(walk@[k].stat.inode) ==> event::told(
                    events@,
                    EventView::Create(walk@[k].path@),
                )
            &&& forall|m: int|
                0 <= m < events@.len() ==> (#[trigger] events@[m] matches Event::Create(path)
                    && exists|k: int| #[trigger]
                    latest(walk@, k) && new.contains(walk@[k].stat.inode) && walk@[k].path@
                        == path@)
            &&& new.finite()
            &&& events@.len() == new.len()
        },
        forall|inode: u64| #[trigger]
            post.tables.inodes.contains(inode) <==> pre.tables.inodes.contains(inode) || came_upon(
                walk@,
                inode,
            ),
        post.tables.fds == pre.tables.fds,
        post.tables.paths == pre.tables.paths,
        post.tables.stats.dom() == pre.tables.stats.dom(),
        post == (WatcherView { phase: Phase::Dispatching, tables: post.tables, ..pre }),
{
    let found = stat::contents(walk@);
    let names = internal::names(found);
    let discoveries = pre.tables.discoveries(found);
    assert forall|inode: u64| #[trigger] names.dom().contains(inode) <==> came_upon(
        walk@,
        inode,
    ) by {
        lemma_came_upon(walk@, inode);
    }
    assert forall|inode: u64| #[trigger] post.tables.inodes.contains(inode) <==> (
    pre.tables.inodes.contains(inode) || came_upon(walk@, inode)) by {
        lemma_came_upon(walk@, inode);
    }
    assert(post.tables.stats.dom() =~= pre.tables.stats.dom());
    match action {
        Action::Deliver { events, closed } => {
            let sent = event::contents(events@);
            assert(new <= names.dom()) by {
                assert forall|inode: u64| #[trigger] new.contains(inode) implies names.dom().contains(
                    inode,
                ) by {
                    lemma_came_upon(walk@, inode);
                }
            }
            assert forall|inode: u64| #[trigger] names.dom().contains(inode) implies discoveries(
                inode,
            ).len() == if new.contains(inode) {
                1nat
            } else {
                0
            } by {
                lemma_came_upon(walk@, inode);
            }
            report::law_count(sent, names.dom(), discoveries, new);
            assert forall|k: int| #[trigger]
                latest(walk@, k) && new.contains(walk@[k].stat.inode) implies event::told(
                events@,
                EventView::Create(walk@[k].path@),
            ) by {
                let what = EventView::Create(walk@[k].path@);
                let inode = walk@[k].stat.inode;
                lemma_names_latest(walk@, k);
                assert(discoveries(inode)[0] == what);
                assert(names.dom().contains(inode) && discoveries(inode).contains(what));
                report::law_member(sent, names.dom(), discoveries, what);
                event::law_contents(events@, what);
            }
            assert forall|m: int| 0 <= m < events@.len() implies (
            #[trigger] events@[m] matches Event::Create(path) && exists|k: int| #[trigger]
                latest(walk@, k) && new.contains(walk@[k].stat.inode) && walk@[k].path@
                    == path@) by {
                assert(sent[m] == events@[m]@);
                assert(sent.contains(sent[m]));
                report::law_member(sent, names.dom(), discoveries, sent[m]);
                let inode = choose|inode: u64| #[trigger]
                    names.dom().contains(inode) && discoveries(inode).contains(sent[m]);
                let k = lemma_latest(walk@, inode);
                lemma_names_latest(walk@, k);
                assert(sent[m] == EventView::Create(walk@[k].path@));
                assert(new.contains(inode));
            }
        },
        _ => {},
    }
}

/// A walk through a directory that was not itself added reports nothing and changes nothing.
pub proof fn law_scanned_below(
    pre: WatcherView,
    walk: Vec<Found>,
    post: WatcherView,
    action: Action,
    dir: u64,
)
    requires
        pre.phase == Phase::Scanning(dir),
        !pre.tables.stats.contains_key(dir),
        watcher::transition(pre, Input::Scanned(walk), post, action),
    ensures
        action matches Action::Deliver { events, closed } && events@.len() == 0 && closed is None,
        post == (WatcherView { phase: Phase::Dispatching, ..pre }),
{
}

} // verus!
