//! The watcher's loop as a state machine.
use vstd::prelude::*;

use crate::event;
use crate::event::{Event, EventView};
use crate::kqueue::internal;
use crate::kqueue::internal::{
    Ignored, Internal, InternalView, Opened, OpenedView, Outcome,
    OutcomeView,
};
use crate::kqueue::kernel::kevent;
use crate::kqueue::queue;
use crate::kqueue::queue::{Call, FileHandler, KQueue, KQueueError, Timespec};
use crate::normal;
use crate::path::Path;
use crate::report;
use crate::stat;
use crate::stat::{FileType, Found};

verus! {

/// A message to the watcher's thread.
#[derive(Debug)]
pub enum Control {
    /// Watch this path too.
    Add(Path),
    /// Come to an end.
    Exit,
}

/// What the loop waits for.
#[derive(Debug, Clone, Copy, PartialEq, Eq, Structural)]
pub enum Phase {
    /// A look into the mailbox.
    Polling,
    /// The opening of a path.
    Opening,
    /// The opening of everything in a directory.
    Entering,
    /// The kernel's answer to requests.
    Registering,
    /// Events from the kernel.
    Waiting,
    /// The end of what was to be done with an event.
    Dispatching,
    /// The new name of the file behind a descriptor.
    Locating(i32),
    /// The inode of the directory that the file behind a descriptor has gone to.
    Inspecting(i32),
    /// A walk through the directory with an inode.
    Scanning(u64),
    /// Nothing: the loop has come to an end.
    Stopped,
}

/// What the loop hears.
#[derive(Debug)]
pub enum Input {
    /// There was a message.
    Message(Control),
    /// There was no message.
    Empty,
    /// There will be no more messages.
    Disconnected,
    /// The path has been opened.
    Opened(Opened),
    /// Everything in the directory has been opened.
    Entered(Vec<Opened>),
    /// The kernel has answered the requests with this number.
    Registered(i32),
    /// The kernel has answered with this number, and has put as many events at the front of the
    /// buffer.
    Kernel(i32, Vec<kevent>),
    /// What was to be done is done.
    Done,
    /// The file has this name now.
    Located(Path),
    /// The directory has this inode.
    Inspected(u64),
    /// The walk came upon this.
    Scanned(Vec<Found>),
}

/// What is to be done next.
#[allow(inconsistent_fields)]
#[derive(Debug)]
pub enum Action {
    /// Look into the mailbox.
    Poll,
    /// Open this path.
    Open(Path),
    /// Open everything in this directory, at any depth.
    Enter(Path),
    /// Close the handlers, and make this call with these requests.
    Register { call: Call, changes: Vec<kevent>, closed: Vec<FileHandler> },
    /// Make this call to get events.
    Wait(Call),
    /// Send the events to the client, in this order, and close the handler.
    Deliver { events: Vec<Event>, closed: Option<FileHandler> },
    /// Nothing is to be done with an event.
    Skip(Ignored),
    /// Ask for the name of the file behind this descriptor.
    Locate(i32),
    /// Ask for the inode of this directory.
    Inspect(Path),
    /// Walk through this directory.
    Scan(Path),
    /// Close the handlers and the queue, and leave the loop.
    Stop { closed: Vec<FileHandler>, queue: KQueue },
    /// Nothing: the input does not belong to the phase.
    Refuse,
}

/// How many events the kernel may hand over at once.
pub const BUFFER: usize = 8;

/// How long the kernel may wait for an event, in nanoseconds.
pub const PATIENCE_NANOS: i32 = 100_000_000;

/// The watcher as its thread runs it.
#[derive(Debug)]
pub struct Watcher {
    queue: KQueue,
    tables: Internal,
    phase: Phase,
    entering: Option<Opened>,
    pending: Vec<kevent>,
    moved: Option<Path>,
}

/// The state of the loop.
pub struct WatcherView {
    pub queue: KQueue,
    pub tables: InternalView,
    pub phase: Phase,
    /// The directory that is open already, while everything in it is being opened.
    pub entering: Option<OpenedView>,
    /// The events that the kernel has handed over and that are still to be looked at.
    pub pending: Seq<kevent>,
    /// The new name of a file, while it is found out where that is.
    pub moved: Option<Seq<u8>>,
}

impl View for Watcher {
    type V = WatcherView;

    closed spec fn view(&self) -> WatcherView {
        WatcherView {
            queue: self.queue,
            tables: self.tables@,
            phase: self.phase,
            entering: match self.entering {
                Some(target) => Some(target@),
                None => None,
            },
            pending: self.pending@,
            moved: match self.moved {
                Some(name) => Some(name@),
                None => None,
            },
        }
    }
}

impl WatcherView {
    /// The tables fit together, and what the phase speaks of is known.
    pub open spec fn wf(self) -> bool {
        &&& self.tables.wf()
        &&& self.entering is Some <==> self.phase == Phase::Entering
        &&& match self.phase {
            Phase::Locating(fd) => self.tables.paths.contains_key(fd),
            Phase::Inspecting(fd) => self.tables.paths.contains_key(fd) && self.moved is Some,
            _ => true,
        }
    }
}

/// The call that the loop gets its events with.
pub open spec fn wait_call(kq: KQueue) -> Call {
    queue::call_of(kq.fd, 0, BUFFER, Some(Timespec { sec: 0, nsec: PATIENCE_NANOS }))
}

/// Whether `closed` holds each of the handlers once, and nothing else.
pub open spec fn closes(closed: Seq<FileHandler>, fds: Map<i32, FileHandler>) -> bool {
    &&& closed.no_duplicates()
    &&& forall|handler: FileHandler| #[trigger]
        closed.contains(handler) <==> fds.contains_key(handler.fd)
}

/// Whether the loop in the state `pre` may come to its end with `post` and `action`.
pub open spec fn stops(pre: WatcherView, post: WatcherView, action: Action) -> bool {
    &&& post == WatcherView {
        tables: InternalView { fds: Map::empty(), ..pre.tables },
        phase: Phase::Stopped,
        ..pre
    }
    &&& action matches Action::Stop { closed, queue } && closes(closed@, pre.tables.fds) && queue
        == pre.queue
}

/// Whether the loop in the state `pre` may turn to the next event with `post` and `action`.
pub open spec fn dispatches(pre: WatcherView, post: WatcherView, action: Action) -> bool {
    if pre.pending.len() == 0 {
        &&& post == WatcherView { phase: Phase::Polling, ..pre }
        &&& action is Poll
    } else {
        let ev = pre.pending[0];
        let rest = WatcherView {
            tables: pre.tables.process(ev),
            pending: pre.pending.skip(1),
            ..pre
        };
        match pre.tables.outcome(ev) {
            OutcomeView::Ignore(why) => {
                &&& post == WatcherView { phase: Phase::Dispatching, ..rest }
                &&& action == Action::Skip(why)
            },
            OutcomeView::Report { event, closed } => {
                &&& post == WatcherView { phase: Phase::Dispatching, ..rest }
                &&& delivers(action, seq![event], closed)
            },
            OutcomeView::Locate { fd, .. } => {
                &&& post == WatcherView { phase: Phase::Locating(fd), ..rest }
                &&& action == Action::Locate(fd)
            },
            OutcomeView::Scan { inode, path } => {
                &&& post == WatcherView { phase: Phase::Scanning(inode), ..rest }
                &&& action matches Action::Scan(dir) && dir@ == path
            },
        }
    }
}

/// Whether `action` is to send exactly `events` and to close `handler`.
pub open spec fn delivers(
    action: Action,
    events: Seq<EventView>,
    handler: Option<FileHandler>,
) -> bool {
    action matches Action::Deliver { events: sent, closed } && event::contents(sent@) == events
        && closed == handler
}

/// Whether the loop in the state `pre` may add `target`, with `entries` in it, to the watched
/// things with `post` and `action`.
pub open spec fn registers(
    pre: WatcherView,
    target: OpenedView,
    entries: Seq<OpenedView>,
    post: WatcherView,
    action: Action,
) -> bool {
    let accepted = InternalView::accepted(target, entries);
    let rejected = InternalView::rejected(target, entries);
    &&& post == WatcherView {
        tables: pre.tables.add(target, entries),
        phase: Phase::Registering,
        entering: None,
        ..pre
    }
    &&& action matches Action::Register { call, changes, closed } && {
        &&& call == queue::call_of(pre.queue.fd, accepted.len() as usize, 0, None)
        &&& changes@ == internal::requests(accepted)
        &&& closed@ == pre.tables.displaced_by_all(accepted) + internal::handlers(rejected)
    }
}

/// Whether `input` can come from a kernel that keeps to its word: it has put as many events into
/// the buffer as it says, or says that it has failed.
pub open spec fn plausible(input: Input) -> bool {
    input matches Input::Kernel(n, events) ==> n == -1 || 0 <= n <= events@.len()
}

/// Whether the loop in the state `pre` may answer `input` with `action` and the state `post`.
pub open spec fn transition(
    pre: WatcherView,
    input: Input,
    post: WatcherView,
    action: Action,
) -> bool {
    match (pre.phase, input) {
        (Phase::Polling, Input::Message(Control::Add(name))) => {
            &&& post == WatcherView { phase: Phase::Opening, ..pre }
            &&& action matches Action::Open(p) && p@ == name@
        },
        (Phase::Polling, Input::Message(Control::Exit)) => stops(pre, post, action),
        (Phase::Polling, Input::Disconnected) => stops(pre, post, action),
        (Phase::Polling, Input::Empty) => {
            &&& post == WatcherView { phase: Phase::Waiting, ..pre }
            &&& action == Action::Wait(wait_call(pre.queue))
        },
        (Phase::Opening, Input::Opened(target)) => if target.stat.kind is TypeDirectory {
            &&& post == WatcherView { phase: Phase::Entering, entering: Some(target@), ..pre }
            &&& action matches Action::Enter(dir) && dir@ == target.path@
        } else {
            registers(pre, target@, Seq::empty(), post, action)
        },
        (Phase::Entering, Input::Entered(entries)) => registers(
            pre,
            pre.entering->0,
            internal::contents(entries@),
            post,
            action,
        ),
        (Phase::Registering, Input::Registered(_)) => {
            &&& post == WatcherView { phase: Phase::Waiting, ..pre }
            &&& action == Action::Wait(wait_call(pre.queue))
        },
        (Phase::Waiting, Input::Kernel(n, events)) => if n == -1 {
            stops(pre, post, action)
        } else {
            dispatches(WatcherView { pending: events@.take(n as int), ..pre }, post, action)
        },
        (Phase::Dispatching, Input::Done) => dispatches(pre, post, action),
        (Phase::Locating(fd), Input::Located(name)) => {
            &&& post == WatcherView { phase: Phase::Inspecting(fd), moved: Some(name@), ..pre }
            &&& action matches Action::Inspect(dir) && dir@ == normal::dir_of(name@)
        },
        (Phase::Inspecting(fd), Input::Inspected(inode)) => {
            &&& post == WatcherView { phase: Phase::Dispatching, moved: None, ..pre }
            &&& delivers(
                action,
                seq![pre.tables.rename(pre.tables.paths[fd].path, pre.moved->0, inode)],
                None,
            )
        },
        (Phase::Scanning(dir), Input::Scanned(walk)) => {
            let found = stat::contents(walk@);
            &&& post == WatcherView {
                tables: pre.tables.scan(dir, found),
                phase: Phase::Dispatching,
                ..pre
            }
            &&& action matches Action::Deliver { events, closed } && {
                &&& closed is None
                &&& if pre.tables.stats.contains_key(dir) {
                    report::reports(
                        event::contents(events@),
                        internal::names(found).dom(),
                        pre.tables.discoveries(found),
                    )
                } else {
                    events@.len() == 0
                }
            }
        },
        _ => {
            &&& post == pre
            &&& action is Refuse
        },
    }
}

impl Watcher {
    /// The loop at its start, with what the kernel has returned when asked for a queue.
    pub fn new(kq: i32) -> (watcher: Result<Watcher, KQueueError>)
        ensures
            watcher is Err <==> kq < 0,
            watcher matches Err(err) ==> err == KQueueError::UnableToCreateKQueue,
            watcher matches Ok(w) ==> w@.wf() && w@.queue.fd == kq && w@.phase == Phase::Polling
                && w@.entering is None && w@.pending.len() == 0 && w@.moved is None && w@.tables == (InternalView {
                fds: Map::empty(),
                paths: Map::empty(),
                inodes: Set::empty(),
                stats: Map::empty(),
            }),
    {
        match KQueue::new(kq) {
            Ok(queue) => {
                Ok(
                    Watcher {
                        queue,
                        tables: Internal::new(),
                        phase: Phase::Polling,
                        entering: None,
                        pending: Vec::new(),
                        moved: None,
                    },
                )
            },
            Err(err) => Err(err),
        }
    }

    /// The message that asks the watcher's thread to watch `path` too.
    pub fn watch(path: Path) -> (message: Control)
        ensures
            message matches Control::Add(p) && p@ == path@,
    {
        Control::Add(path)
    }

    /// The message that asks the watcher's thread to come to its end.
    pub fn close() -> (message: Control)
        ensures
            message is Exit,
    {
        Control::Exit
    }

    fn wait(&mut self) -> (action: Action)
        ensures
            final(self)@ == (WatcherView { phase: Phase::Waiting, ..old(self)@ }),
            action == Action::Wait(wait_call(old(self)@.queue)),
    {
        self.phase = Phase::Waiting;
        let patience = Timespec::new(0, PATIENCE_NANOS);
        let nothing: Vec<kevent> = Vec::new();
        Action::Wait(self.queue.process(nothing.as_slice(), BUFFER, &Some(patience)))
    }

    fn stop(&mut self) -> (action: Action)
        requires
            old(self)@.tables.wf(),
            old(self)@.entering is None,
        ensures
            stops(old(self)@, final(self)@, action),
            final(self)@.wf(),
    {
        self.phase = Phase::Stopped;
        let closed = self.tables.release();
        Action::Stop { closed, queue: KQueue { fd: self.queue.fd } }
    }

    fn register(&mut self, target: Opened, entries: Vec<Opened>) -> (action: Action)
        requires
            old(self)@.tables.wf(),
            old(self)@.entering is None,
        ensures
            registers(
                old(self)@,
                target@,
                internal::contents(entries@),
                final(self)@,
                action,
            ),
            final(self)@.wf(),
    {
        let added = self.tables.add(target, entries);
        self.phase = Phase::Registering;
        let call = self.queue.process(added.input.as_slice(), 0, &None);
        Action::Register { call, changes: added.input, closed: added.closed }
    }

    fn dispatch(&mut self) -> (action: Action)
        requires
            old(self)@.tables.wf(),
            old(self)@.entering is None,
        ensures
            dispatches(old(self)@, final(self)@, action),
            final(self)@.wf(),
    {
        if self.pending.len() == 0 {
            self.phase = Phase::Polling;
            return Action::Poll;
        }
        let ghost before = self.pending@;
        let ev = self.pending.remove(0);
        proof {
            assert(self.pending@ =~= before.skip(1));
        }
        match self.tables.process(&ev) {
            Outcome::Ignore(why) => {
                self.phase = Phase::Dispatching;
                Action::Skip(why)
            },
            Outcome::Report { event, closed } => {
                self.phase = Phase::Dispatching;
                let events = vec![event];
                proof {
                    assert(event::contents(events@) =~= seq![event@]);
                }
                Action::Deliver { events, closed }
            },
            Outcome::Locate { fd, path: _ } => {
                self.phase = Phase::Locating(fd);
                Action::Locate(fd)
            },
            Outcome::Scan { inode, path } => {
                self.phase = Phase::Scanning(inode);
                Action::Scan(path)
            },
        }
    }

    /// Takes one step of the loop.
    pub fn step(&mut self, input: Input) -> (action: Action)
        requires
            old(self)@.wf(),
            plausible(input),
        ensures
            transition(old(self)@, input, final(self)@, action),
            final(self)@.wf(),
    {
        match (self.phase, input) {
            (Phase::Polling, Input::Message(Control::Add(path))) => {
                self.phase = Phase::Opening;
                Action::Open(path)
            },
            (Phase::Polling, Input::Message(Control::Exit)) => self.stop(),
            (Phase::Polling, Input::Disconnected) => self.stop(),
            (Phase::Polling, Input::Empty) => self.wait(),
            (Phase::Opening, Input::Opened(target)) => {
                if target.stat.kind == FileType::TypeDirectory {
                    let dir = target.path.clone();
                    self.phase = Phase::Entering;
                    self.entering = Some(target);
                    Action::Enter(dir)
                } else {
                    let nothing: Vec<Opened> = Vec::new();
                    proof {
                        assert(internal::contents(nothing@) =~= Seq::empty());
                    }
                    self.register(target, nothing)
                }
            },
            (Phase::Entering, Input::Entered(entries)) => {
                match self.entering.take() {
                    Some(target) => self.register(target, entries),
                    None => Action::Refuse,
                }
            },
            (Phase::Registering, Input::Registered(_)) => self.wait(),
            (Phase::Waiting, Input::Kernel(n, mut events)) => {
                if n == -1 {
                    self.stop()
                } else {
                    events.truncate(n as usize);
                    self.pending = events;
                    self.dispatch()
                }
            },
            (Phase::Dispatching, Input::Done) => self.dispatch(),
            (Phase::Locating(fd), Input::Located(name)) => {
                let dir = name.dir_path();
                self.phase = Phase::Inspecting(fd);
                self.moved = Some(name);
                Action::Inspect(dir)
            },
            (Phase::Inspecting(fd), Input::Inspected(inode)) => {
                match (self.tables.path_of(fd), self.moved.take()) {
                    (Some(path), Some(name)) => {
                        self.phase = Phase::Dispatching;
                        let events = vec![self.tables.renamed(path, name, inode)];
                        proof {
                            assert(event::contents(events@) =~= seq![events@[0]@]);
                        }
                        Action::Deliver { events, closed: None }
                    },
                    _ => Action::Refuse,
                }
            },
            (Phase::Scanning(dir), Input::Scanned(walk)) => {
                self.phase = Phase::Dispatching;
                let events = self.tables.scanned(dir, walk);
                Action::Deliver { events, closed: None }
            },
            _ => Action::Refuse,
        }
    }
}

} // verus!
