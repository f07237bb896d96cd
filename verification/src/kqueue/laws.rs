//! What holds of the kernel queue watcher as a whole.
use vstd::prelude::*;

use crate::event;
use crate::event::EventView;
use crate::kqueue::flags::{Bits, EVFILT_VNODE, NOTE_DELETE, NOTE_RENAME, NOTE_WRITE};
use crate::kqueue::internal;
use crate::kqueue::internal::{Ignored, InternalView, OpenedView, OutcomeView};
use crate::kqueue::kernel;
use crate::kqueue::kernel::kevent;
use crate::kqueue::queue::FileHandler;
use crate::kqueue::watcher;
use crate::kqueue::watcher::{Action, Control, Input, Phase, WatcherView};
use crate::report;
use crate::stat;
use crate::stat::{Found, FoundView};

verus! {

/// What a step adds to the watched things: the target, and what is in it.
pub open spec fn added(pre: WatcherView, input: Input) -> (OpenedView, Seq<OpenedView>) {
    match input {
        Input::Opened(target) => (target@, Seq::empty()),
        Input::Entered(entries) => (pre.entering->0, internal::contents(entries@)),
        _ => arbitrary(),
    }
}

/// The watcher forgets nothing: whatever has been seen stays seen, and a descriptor that was
/// registered stays known.
pub proof fn law_nothing_forgotten(
    pre: WatcherView,
    input: Input,
    post: WatcherView,
    action: Action,
)
    requires
        watcher::transition(pre, input, post, action),
    ensures
        pre.tables.inodes <= post.tables.inodes,
        pre.tables.paths.dom() <= post.tables.paths.dom(),
{
    if action is Register {
        let (target, entries) = added(pre, input);
        internal::lemma_register_all_grows(pre.tables, InternalView::accepted(target, entries));
    }
}

/// Whether the states, inputs and actions are those of a run of the loop, step by step.
pub open spec fn is_run(
    states: Seq<WatcherView>,
    inputs: Seq<Input>,
    actions: Seq<Action>,
) -> bool {
    &&& states.len() == inputs.len() + 1
    &&& actions.len() == inputs.len()
    &&& forall|i: int|
        #![trigger inputs[i]]
        0 <= i < inputs.len() ==> watcher::transition(
            states[i],
            inputs[i],
            states[i + 1],
            actions[i],
        )
}

/// The inodes whose discovery a step reports.
pub open spec fn announced(pre: WatcherView, input: Input) -> Set<u64> {
    match (pre.phase, input) {
        (Phase::Scanning(dir), Input::Scanned(walk)) => if pre.tables.stats.contains_key(dir) {
            internal::names(stat::contents(walk@)).dom().difference(pre.tables.inodes)
        } else {
            Set::empty()
        },
        _ => Set::empty(),
    }
}

/// A step reports a creation exactly for the inodes that it announces, with the paths that the
/// walk gave them.
pub proof fn law_creations_are_announced(
    pre: WatcherView,
    input: Input,
    post: WatcherView,
    action: Action,
    name: Seq<u8>,
)
    requires
        watcher::transition(pre, input, post, action),
    ensures
        (action matches Action::Deliver { events, .. } && event::contents(events@).contains(
            EventView::Create(name),
        )) <==> (input matches Input::Scanned(walk) && exists|inode: u64| #[trigger]
            announced(pre, input).contains(inode) && internal::names(stat::contents(walk@))[inode]
                == name),
{
    match (pre.phase, input) {
        (Phase::Scanning(dir), Input::Scanned(walk)) => {
            let found = stat::contents(walk@);
            let keys = internal::names(found).dom();
            let discoveries = pre.tables.discoveries(found);
            let event = EventView::Create(name);
            match action {
                Action::Deliver { events, closed } => {
                    if pre.tables.stats.contains_key(dir) {
                        report::law_member(
                            event::contents(events@),
                            keys,
                            discoveries,
                            event,
                        );
                        assert forall|inode: u64| #[trigger] keys.contains(inode) implies (
                        discoveries(inode).contains(event) <==> announced(pre, input).contains(
                            inode,
                        ) && internal::names(found)[inode] == name) by {
                            if !pre.tables.inodes.contains(inode) {
                                assert(discoveries(inode)[0] == EventView::Create(
                                    internal::names(found)[inode],
                                ));
                            }
                        }
                        if event::contents(events@).contains(event) {
                            let inode = choose|inode: u64| #[trigger]
                                keys.contains(inode) && discoveries(inode).contains(event);
                            assert(announced(pre, input).contains(inode));
                        }
                        if exists|inode: u64| #[trigger]
                            announced(pre, input).contains(inode) && internal::names(found)[inode]
                                == name {
                            let inode = choose|inode: u64| #[trigger]
                                announced(pre, input).contains(inode)
                                    && internal::names(found)[inode] == name;
                            assert(keys.contains(inode));
                        }
                    } else {
                        assert(event::contents(events@).len() == 0);
                    }
                },
                _ => {},
            }
        },
        (Phase::Inspecting(fd), Input::Inspected(inode)) => {
            match action {
                Action::Deliver { events, closed } => {
                    let sent = event::contents(events@);
                    assert(sent.len() == 1);
                },
                _ => {},
            }
        },
        _ => {
            match action {
                Action::Deliver { events, closed } => {
                    let sent = event::contents(events@);
                    assert(sent.len() == 1);
                },
                _ => {},
            }
        },
    }
}

/// What a step announces has been seen afterwards.
proof fn lemma_announced_is_seen(
    pre: WatcherView,
    input: Input,
    post: WatcherView,
    action: Action,
)
    requires
        watcher::transition(pre, input, post, action),
    ensures
        announced(pre, input) <= post.tables.inodes,
{
}

proof fn lemma_run_forgets_nothing(
    states: Seq<WatcherView>,
    inputs: Seq<Input>,
    actions: Seq<Action>,
    i: int,
    j: int,
)
    requires
        is_run(states, inputs, actions),
        0 <= i <= j < states.len(),
    ensures
        states[i].tables.inodes <= states[j].tables.inodes,
        states[i].tables.paths.dom() <= states[j].tables.paths.dom(),
    decreases j - i,
{
    if i < j {
        lemma_run_forgets_nothing(states, inputs, actions, i, j - 1);
        assert(watcher::transition(
            states[j - 1],
            inputs[j - 1],
            states[j - 1 + 1],
            actions[j - 1],
        ));
        law_nothing_forgotten(states[j - 1], inputs[j - 1], states[j], actions[j - 1]);
    }
}

/// In a whole run the discovery of an inode is reported at most once.
pub proof fn law_discovered_once(
    states: Seq<WatcherView>,
    inputs: Seq<Input>,
    actions: Seq<Action>,
    i: int,
    j: int,
)
    requires
        is_run(states, inputs, actions),
        0 <= i < j < inputs.len(),
    ensures
        announced(states[i], inputs[i]).disjoint(announced(states[j], inputs[j])),
{
    assert(watcher::transition(states[i], inputs[i], states[i + 1], actions[i]));
    lemma_announced_is_seen(states[i], inputs[i], states[i + 1], actions[i]);
    lemma_run_forgets_nothing(states, inputs, actions, i + 1, j);
}

/// What is in a directory when it is added is not news for the rest of the run: no later step
/// reports the discovery of anything that was added.
pub proof fn law_added_is_never_discovered(
    states: Seq<WatcherView>,
    inputs: Seq<Input>,
    actions: Seq<Action>,
    i: int,
    j: int,
    k: int,
)
    requires
        is_run(states, inputs, actions),
        0 <= i < j < inputs.len(),
        actions[i] is Register,
        0 <= k < InternalView::accepted(
            added(states[i], inputs[i]).0,
            added(states[i], inputs[i]).1,
        ).len(),
    ensures
        !announced(states[j], inputs[j]).contains(
            InternalView::accepted(
                added(states[i], inputs[i]).0,
                added(states[i], inputs[i]).1,
            )[k].stat.inode,
        ),
{
    let (target, entries) = added(states[i], inputs[i]);
    let accepted = InternalView::accepted(target, entries);
    assert(watcher::transition(states[i], inputs[i], states[i + 1], actions[i]));
    internal::lemma_register_all_grows(states[i].tables, accepted);
    assert(states[i + 1].tables.inodes.contains(accepted[k].stat.inode));
    lemma_run_forgets_nothing(states, inputs, actions, i + 1, j);
}

/// Once the loop has ended nothing happens any more.
pub proof fn law_stopped_is_final(
    states: Seq<WatcherView>,
    inputs: Seq<Input>,
    actions: Seq<Action>,
    i: int,
    j: int,
)
    requires
        is_run(states, inputs, actions),
        0 <= i <= j < inputs.len(),
        states[i].phase == Phase::Stopped,
    ensures
        states[j + 1] == states[i],
        actions[j] is Refuse,
    decreases j - i,
{
    if i < j {
        law_stopped_is_final(states, inputs, actions, i, j - 1);
    }
    assert(watcher::transition(states[j], inputs[j], states[j + 1], actions[j]));
}

/// The loop ends when it is told to, when nobody is left to tell it anything, and when the kernel
/// fails; and then it holds no descriptor.
pub proof fn law_ends(pre: WatcherView, input: Input, post: WatcherView, action: Action)
    requires
        watcher::transition(pre, input, post, action),
        match pre.phase {
            Phase::Polling => input is Disconnected || input == Input::Message(Control::Exit),
            Phase::Waiting => input matches Input::Kernel(n, _) && n == -1,
            _ => false,
        },
    ensures
        post.phase == Phase::Stopped,
        post.tables.fds == Map::<i32, FileHandler>::empty(),
        action is Stop,
{
}

/// Whether `input` is what the loop waits for in this phase.
pub open spec fn awaited(phase: Phase, input: Input) -> bool {
    match phase {
        Phase::Polling => input is Message || input is Empty || input is Disconnected,
        Phase::Opening => input is Opened,
        Phase::Entering => input is Entered,
        Phase::Registering => input is Registered,
        Phase::Waiting => input is Kernel,
        Phase::Dispatching => input is Done,
        Phase::Locating(_) => input is Located,
        Phase::Inspecting(_) => input is Inspected,
        Phase::Scanning(_) => input is Scanned,
        Phase::Stopped => false,
    }
}

/// The loop refuses an input just when it does not wait for it, and then nothing changes.
pub proof fn law_refusal(pre: WatcherView, input: Input, post: WatcherView, action: Action)
    requires
        watcher::transition(pre, input, post, action),
    ensures
        action is Refuse <==> !awaited(pre.phase, input),
        action is Refuse ==> post == pre,
{
}

/// How many handlers of a list have the descriptor `fd`.
pub open spec fn copies(list: Seq<FileHandler>, fd: i32) -> nat
    decreases list.len(),
{
    if list.len() == 0 {
        0
    } else {
        copies(list.drop_last(), fd) + if list.last().fd == fd {
            1nat
        } else {
            0
        }
    }
}

/// How many handlers with the descriptor `fd` the tables hold.
pub open spec fn in_tables(tables: InternalView, fd: i32) -> nat {
    if tables.fds.contains_key(fd) {
        1
    } else {
        0
    }
}

/// How many handlers with the descriptor `fd` the loop holds: in its tables, and for a directory
/// that is being entered.
pub open spec fn held(state: WatcherView, fd: i32) -> nat {
    in_tables(state.tables, fd) + match state.entering {
        Some(target) => copies(seq![target.handler], fd),
        None => 0,
    }
}

/// How many handlers with the descriptor `fd` come with an input.
pub open spec fn given(input: Input, fd: i32) -> nat {
    match input {
        Input::Opened(target) => copies(seq![target.handler], fd),
        Input::Entered(entries) => copies(
            internal::handlers(internal::contents(entries@)),
            fd,
        ),
        _ => 0,
    }
}

/// How many handlers with the descriptor `fd` an action closes.
pub open spec fn closed_by(action: Action, fd: i32) -> nat {
    match action {
        Action::Register { closed, .. } => copies(closed@, fd),
        Action::Deliver { closed: Some(handler), .. } => if handler.fd == fd {
            1
        } else {
            0
        },
        Action::Stop { closed, .. } => copies(closed@, fd),
        _ => 0,
    }
}

proof fn lemma_copies_sum(a: Seq<FileHandler>, b: Seq<FileHandler>, fd: i32)
    ensures
        copies(a + b, fd) == copies(a, fd) + copies(b, fd),
    decreases b.len(),
{
    if b.len() == 0 {
        assert(a + b =~= a);
    } else {
        assert((a + b).drop_last() =~= a + b.drop_last());
        lemma_copies_sum(a, b.drop_last(), fd);
    }
}

proof fn lemma_copies_distinct(list: Seq<FileHandler>, fd: i32)
    requires
        list.no_duplicates(),
    ensures
        copies(list, fd) == if list.contains(FileHandler { fd }) {
            1nat
        } else {
            0
        },
    decreases list.len(),
{
    let handler = FileHandler { fd };
    if list.len() > 0 {
        let rest = list.drop_last();
        lemma_copies_distinct(rest, fd);
        if rest.contains(handler) {
            let i = choose|i: int| 0 <= i < rest.len() && rest[i] == handler;
            assert(list[i] == handler);
            assert(list[list.len() - 1] != handler);
        }
        if list.contains(handler) && list.last() != handler {
            let i = choose|i: int| 0 <= i < list.len() && list[i] == handler;
            assert(rest[i] == handler);
        }
        if list.last() == handler {
            assert(list[list.len() - 1] == handler);
        }
    }
}

/// Entering opened things balances: what the tables held and what they were given is what they
/// hold now and what had to make way.
proof fn lemma_register_all_balance(tables: InternalView, opened: Seq<OpenedView>, fd: i32)
    requires
        tables.wf(),
    ensures
        in_tables(tables, fd) + copies(internal::handlers(opened), fd) == in_tables(
            tables.register_all(opened),
            fd,
        ) + copies(tables.displaced_by_all(opened), fd),
        forall|k: i32| #[trigger]
            tables.register_all(opened).fds.contains_key(k) ==> tables.register_all(
                opened,
            ).fds[k].fd == k,
    decreases opened.len(),
{
    if opened.len() == 0 {
        assert(internal::handlers(opened) =~= Seq::empty());
    } else {
        let rest = opened.drop_last();
        let one = opened.last();
        let before = tables.register_all(rest);
        lemma_register_all_balance(tables, rest, fd);
        assert(internal::handlers(opened).drop_last() =~= internal::handlers(rest));
        let gone = before.displaced(one.handler.fd);
        lemma_copies_sum(tables.displaced_by_all(rest), gone, fd);
        if gone.len() == 1 {
            assert(gone.drop_last() =~= Seq::empty());
        }
        assert(copies(gone, fd) == if before.fds.contains_key(one.handler.fd) && one.handler.fd
            == fd {
            1nat
        } else {
            0
        }) by {
            reveal_with_fuel(copies, 2);
        }
    }
}

/// No descriptor is lost and none is closed twice: in every step that the loop does not refuse,
/// what it held and what it was given is what it holds now and what it hands out to be closed.
pub proof fn law_descriptors_balance(
    pre: WatcherView,
    input: Input,
    post: WatcherView,
    action: Action,
    fd: i32,
)
    requires
        pre.wf(),
        watcher::transition(pre, input, post, action),
        !(action is Refuse),
    ensures
        held(pre, fd) + given(input, fd) == held(post, fd) + closed_by(action, fd),
{
    match action {
        Action::Stop { closed, .. } => {
            lemma_copies_distinct(closed@, fd);
        },
        Action::Register { closed, .. } => {
            let (target, entries) = added(pre, input);
            let accepted = InternalView::accepted(target, entries);
            let rejected = InternalView::rejected(target, entries);
            lemma_register_all_balance(pre.tables, accepted, fd);
            lemma_copies_sum(
                pre.tables.displaced_by_all(accepted),
                internal::handlers(rejected),
                fd,
            );
            lemma_copies_sum(internal::handlers(accepted), internal::handlers(rejected), fd);
            lemma_copies_sum(seq![target.handler], internal::handlers(entries), fd);
            assert(internal::handlers(accepted) + internal::handlers(rejected)
                =~= seq![target.handler] + internal::handlers(entries));
            if input is Opened {
                assert(internal::handlers(entries) =~= Seq::empty());
            }
        },
        _ => {},
    }
}

/// Every request that goes to the kernel is about a descriptor that the tables know from then on:
/// news of it is never taken for news of an unknown descriptor.
pub proof fn law_requests_are_registered(
    states: Seq<WatcherView>,
    inputs: Seq<Input>,
    actions: Seq<Action>,
    i: int,
    j: int,
    request: kevent,
    ev: kevent,
)
    requires
        is_run(states, inputs, actions),
        0 <= i < j < states.len(),
        actions[i] matches Action::Register { changes, .. } && changes@.contains(request),
        ev.ident == request.ident,
    ensures
        states[j].tables.outcome(ev) != OutcomeView::Ignore(Ignored::Unregistered),
{
    assert(watcher::transition(states[i], inputs[i], states[i + 1], actions[i]));
    match actions[i] {
        Action::Register { changes, .. } => {
            let (target, entries) = added(states[i], inputs[i]);
            let accepted = InternalView::accepted(target, entries);
            let k = choose|k: int| 0 <= k < changes@.len() && changes@[k] == request;
            assert(request == kernel::vnode_request(accepted[k].handler.fd));
            kernel::law_ident_round_trip(accepted[k].handler.fd);
            internal::lemma_register_all_grows(states[i].tables, accepted);
            lemma_run_forgets_nothing(states, inputs, actions, i + 1, j);
            assert(states[i + 1].tables.paths.dom().contains(accepted[k].handler.fd));
        },
        _ => {},
    }
}

/// A descriptor keeps its meaning until something else is opened under it.
pub proof fn law_descriptor_keeps_its_meaning(
    pre: WatcherView,
    input: Input,
    post: WatcherView,
    action: Action,
    fd: i32,
)
    requires
        watcher::transition(pre, input, post, action),
        pre.tables.paths.contains_key(fd),
        action is Register ==> forall|i: int|
            #![trigger InternalView::accepted(added(pre, input).0, added(pre, input).1)[i]]
            0 <= i < InternalView::accepted(added(pre, input).0, added(pre, input).1).len()
                ==> InternalView::accepted(
                added(pre, input).0,
                added(pre, input).1,
            )[i].handler.fd != fd,
    ensures
        post.tables.paths.contains_key(fd),
        post.tables.paths[fd] == pre.tables.paths[fd],
{
    if action is Register {
        let (target, entries) = added(pre, input);
        lemma_register_all_leaves(pre.tables, InternalView::accepted(target, entries), fd);
    }
}

proof fn lemma_register_all_leaves(tables: InternalView, opened: Seq<OpenedView>, fd: i32)
    requires
        tables.paths.contains_key(fd),
        forall|i: int| 0 <= i < opened.len() ==> (#[trigger] opened[i]).handler.fd != fd,
    ensures
        tables.register_all(opened).paths.contains_key(fd),
        tables.register_all(opened).paths[fd] == tables.paths[fd],
    decreases opened.len(),
{
    if opened.len() > 0 {
        let rest = opened.drop_last();
        assert forall|i: int| 0 <= i < rest.len() implies (#[trigger] rest[i]).handler.fd != fd by {
            assert(rest[i] == opened[i]);
        }
        assert(opened[opened.len() - 1].handler.fd != fd);
        lemma_register_all_leaves(tables, rest, fd);
    }
}

/// What is registered is known under its descriptor, with its own path, kind and inode.
pub proof fn law_registered_is_known(
    tables: InternalView,
    target: OpenedView,
    entries: Seq<OpenedView>,
    k: int,
)
    requires
        0 <= k < InternalView::accepted(target, entries).len(),
        forall|i: int|
            k < i < InternalView::accepted(target, entries).len() ==> (
            #[trigger] InternalView::accepted(target, entries)[i]).handler.fd
                != InternalView::accepted(target, entries)[k].handler.fd,
    ensures
        ({
            let one = InternalView::accepted(target, entries)[k];
            &&& tables.add(target, entries).paths.contains_key(one.handler.fd)
            &&& tables.add(target, entries).paths[one.handler.fd] == internal::remembered(
                one.path,
                one.stat,
            )
        }),
{
    lemma_register_all_knows(tables, InternalView::accepted(target, entries), k);
}

/// The last thing that is entered under a descriptor is what the descriptor stands for.
pub proof fn lemma_register_all_knows(tables: InternalView, opened: Seq<OpenedView>, k: int)
    requires
        0 <= k < opened.len(),
        forall|i: int|
            k < i < opened.len() ==> (#[trigger] opened[i]).handler.fd != opened[k].handler.fd,
    ensures
        tables.register_all(opened).paths.contains_key(opened[k].handler.fd),
        tables.register_all(opened).paths[opened[k].handler.fd] == internal::remembered(
            opened[k].path,
            opened[k].stat,
        ),
    decreases opened.len(),
{
    if k < opened.len() - 1 {
        let rest = opened.drop_last();
        assert forall|i: int| k < i < rest.len() implies (#[trigger] rest[i]).handler.fd
            != rest[k].handler.fd by {
            assert(rest[i] == opened[i]);
        }
        lemma_register_all_knows(tables, rest, k);
        assert(opened[opened.len() - 1].handler.fd != opened[k].handler.fd);
    }
}

/// The event that the loop turns to next, where there is one: the first of those that the kernel
/// hands over, or the first of those that are left.
pub open spec fn next_event(pre: WatcherView, input: Input) -> Option<kevent> {
    match (pre.phase, input) {
        (Phase::Waiting, Input::Kernel(n, events)) => if 1 <= n <= events@.len() {
            Some(events@[0])
        } else {
            None
        },
        (Phase::Dispatching, Input::Done) => if pre.pending.len() > 0 {
            Some(pre.pending[0])
        } else {
            None
        },
        _ => None,
    }
}

/// Whether the loop turns to an event about the known descriptor `fd`, with these flags.
pub open spec fn hears(pre: WatcherView, input: Input, fd: i32, fflags: u32) -> bool {
    &&& pre.tables.paths.contains_key(fd)
    &&& next_event(pre, input) matches Some(ev) && kernel::descriptor_of(ev.ident) == fd
        && ev.filter.meets(EVFILT_VNODE) && ev.fflags == fflags
}

/// A file that is written to is reported as modified, under the path that it was added with.
pub proof fn law_written_file(
    pre: WatcherView,
    input: Input,
    post: WatcherView,
    action: Action,
    fd: i32,
    fflags: u32,
)
    requires
        watcher::transition(pre, input, post, action),
        hears(pre, input, fd, fflags),
        fflags.meets(NOTE_WRITE),
        pre.tables.paths[fd].kind is TypeFile,
    ensures
        watcher::delivers(action, seq![EventView::Modify(pre.tables.paths[fd].path)], None),
{
}

/// A file that is deleted is reported as removed, and its descriptor is closed.
pub proof fn law_deleted_file(
    pre: WatcherView,
    input: Input,
    post: WatcherView,
    action: Action,
    fd: i32,
    fflags: u32,
)
    requires
        pre.wf(),
        watcher::transition(pre, input, post, action),
        hears(pre, input, fd, fflags),
        !fflags.meets(NOTE_WRITE),
        fflags.meets(NOTE_DELETE),
        pre.tables.paths[fd].kind is TypeFile,
    ensures
        watcher::delivers(
            action,
            seq![EventView::Remove(pre.tables.paths[fd].path)],
            if pre.tables.fds.contains_key(fd) {
                Some(FileHandler { fd })
            } else {
                None
            },
        ),
        !post.tables.fds.contains_key(fd),
{
}

/// A file that gets another name is reported as renamed where the directory that it is in now has
/// been seen, and as removed where it has not.
pub proof fn law_renamed_file(
    states: Seq<WatcherView>,
    inputs: Seq<Input>,
    actions: Seq<Action>,
    fd: i32,
    fflags: u32,
)
    requires
        is_run(states, inputs, actions),
        inputs.len() == 3,
        hears(states[0], inputs[0], fd, fflags),
        !fflags.meets(NOTE_WRITE),
        !fflags.meets(NOTE_DELETE),
        fflags.meets(NOTE_RENAME),
        states[0].tables.paths[fd].kind is TypeFile,
        inputs[1] is Located,
        inputs[2] is Inspected,
    ensures
        actions[0] == Action::Locate(fd),
        inputs[1] matches Input::Located(name) && {
            &&& actions[1] matches Action::Inspect(dir) && dir@ == crate::normal::dir_of(name@)
            &&& inputs[2] matches Input::Inspected(inode) && watcher::delivers(
                actions[2],
                seq![
                    if states[0].tables.inodes.contains(inode) {
                        EventView::Rename(states[0].tables.paths[fd].path, name@)
                    } else {
                        EventView::Remove(states[0].tables.paths[fd].path)
                    },
                ],
                None,
            )
        },
{
    assert(watcher::transition(states[0], inputs[0], states[1], actions[0]));
    assert(watcher::transition(states[1], inputs[1], states[2], actions[1]));
    assert(watcher::transition(states[2], inputs[2], states[3], actions[2]));
}

/// When something new appears in a watched directory, the directory is walked through and the new
/// thing, and nothing else, is reported as created.
pub proof fn law_new_in_directory(
    states: Seq<WatcherView>,
    inputs: Seq<Input>,
    actions: Seq<Action>,
    fd: i32,
    fflags: u32,
    walk: Vec<Found>,
    new: int,
)
    requires
        is_run(states, inputs, actions),
        inputs.len() == 2,
        hears(states[0], inputs[0], fd, fflags),
        fflags.meets(NOTE_WRITE),
        states[0].tables.paths[fd].kind is TypeDirectory,
        states[0].tables.stats.contains_key(states[0].tables.paths[fd].inode),
        inputs[1] == Input::Scanned(walk),
        0 <= new < walk@.len(),
        forall|i: int|
            0 <= i < walk@.len() ==> (states[0].tables.inodes.contains(
                (#[trigger] walk@[i]).stat.inode,
            ) <==> i != new),
    ensures
        actions[0] matches Action::Scan(dir) && dir@ == states[0].tables.paths[fd].path,
        watcher::delivers(actions[1], seq![EventView::Create(walk@[new].path@)], None),
{
    let found = stat::contents(walk@);
    assert(watcher::transition(states[0], inputs[0], states[1], actions[0]));
    assert(watcher::transition(states[1], inputs[1], states[2], actions[1]));
    assert forall|i: int| 0 <= i < found.len() implies (states[1].tables.inodes.contains(
        (#[trigger] found[i]).stat.inode,
    ) <==> i != new) by {
        assert(found[i] == walk@[i]@);
    }
    match actions[1] {
        Action::Deliver { events, .. } => {
            law_one_created(states[1].tables, found, new, event::contents(events@));
        },
        _ => {},
    }
}

/// Of a file the client hears that it was written to before all else, that it was deleted where
/// it was not written to, and that it was renamed where neither happened.
pub proof fn law_precedence(tables: InternalView, ev: kevent)
    requires
        tables.paths.contains_key(kernel::descriptor_of(ev.ident)),
        tables.paths[kernel::descriptor_of(ev.ident)].kind is TypeFile,
        ev.filter.meets(EVFILT_VNODE),
    ensures
        ({
            let path = tables.paths[kernel::descriptor_of(ev.ident)].path;
            let outcome = tables.outcome(ev);
            let written = ev.fflags.meets(NOTE_WRITE);
            let deleted = ev.fflags.meets(NOTE_DELETE);
            let renamed = ev.fflags.meets(NOTE_RENAME);
            &&& written <==> (outcome matches OutcomeView::Report { event, .. } && event
                == EventView::Modify(path))
            &&& !written && deleted <==> (outcome matches OutcomeView::Report { event, .. }
                && event == EventView::Remove(path))
            &&& !written && !deleted && renamed <==> outcome is Locate
            &&& !written && !deleted && !renamed <==> outcome is Ignore
        }),
{
}

/// What is in a directory when it is added is not news: a walk that comes upon nothing else
/// reports nothing.
pub proof fn law_added_directory_is_quiet(
    tables: InternalView,
    target: OpenedView,
    entries: Seq<OpenedView>,
    walk: Seq<FoundView>,
    events: Seq<EventView>,
)
    requires
        target.stat.kind is TypeDirectory,
        forall|i: int|
            0 <= i < walk.len() ==> exists|k: int|
                0 <= k < entries.len() && #[trigger] entries[k].stat.inode == (
                #[trigger] walk[i]).stat.inode,
        report::reports(
            events,
            internal::names(walk).dom(),
            tables.add(target, entries).discoveries(walk),
        ),
    ensures
        tables.add(target, entries).stats.contains_key(target.stat.inode),
        events.len() == 0,
{
    let post = tables.add(target, entries);
    let accepted = seq![target] + entries;
    internal::lemma_register_all_grows(tables, accepted);
    assert forall|inode: u64| #[trigger] internal::names(walk).dom().contains(
        inode,
    ) implies post.discoveries(walk)(inode).len() == 0 by {
        internal::lemma_names_dom(walk, inode);
        let i = choose|i: int| 0 <= i < walk.len() && #[trigger] walk[i].stat.inode == inode;
        let k = choose|k: int|
            0 <= k < entries.len() && #[trigger] entries[k].stat.inode == walk[i].stat.inode;
        assert(accepted[k + 1] == entries[k]);
        assert(post.inodes.contains(accepted[k + 1].stat.inode));
    }
    report::law_silent(events, internal::names(walk).dom(), post.discoveries(walk));
}

/// A walk that comes upon the same as the walk before reports nothing.
pub proof fn law_same_walk_is_quiet(
    tables: InternalView,
    dir: u64,
    walk: Seq<FoundView>,
    events: Seq<EventView>,
)
    requires
        tables.stats.contains_key(dir),
        report::reports(
            events,
            internal::names(walk).dom(),
            tables.scan(dir, walk).discoveries(walk),
        ),
    ensures
        events.len() == 0,
{
    report::law_silent(
        events,
        internal::names(walk).dom(),
        tables.scan(dir, walk).discoveries(walk),
    );
}

/// A find whose inode no other find has gives that inode its name.
proof fn lemma_name_of(walk: Seq<FoundView>, k: int)
    requires
        0 <= k < walk.len(),
        forall|i: int|
            0 <= i < walk.len() && i != k ==> (#[trigger] walk[i]).stat.inode
                != walk[k].stat.inode,
    ensures
        internal::names(walk).contains_key(walk[k].stat.inode),
        internal::names(walk)[walk[k].stat.inode] == walk[k].path,
    decreases walk.len(),
{
    if k < walk.len() - 1 {
        let rest = walk.drop_last();
        assert forall|i: int| 0 <= i < rest.len() && i != k implies (
        #[trigger] rest[i]).stat.inode != rest[k].stat.inode by {
            assert(rest[i] == walk[i]);
        }
        lemma_name_of(rest, k);
        assert(walk[walk.len() - 1].stat.inode != walk[k].stat.inode);
    }
}

/// One thing that was never seen before, among things that were, is reported as its creation and
/// nothing else is. It makes no difference whether it was made there or moved in from elsewhere.
pub proof fn law_one_created(
    tables: InternalView,
    walk: Seq<FoundView>,
    new: int,
    events: Seq<EventView>,
)
    requires
        0 <= new < walk.len(),
        forall|i: int|
            0 <= i < walk.len() ==> (tables.inodes.contains((#[trigger] walk[i]).stat.inode) <==> i
                != new),
        report::reports(events, internal::names(walk).dom(), tables.discoveries(walk)),
    ensures
        events == seq![EventView::Create(walk[new].path)],
{
    let inode = walk[new].stat.inode;
    assert(!tables.inodes.contains(walk[new].stat.inode));
    lemma_name_of(walk, new);
    assert forall|k: u64|
        k != inode && #[trigger] internal::names(walk).dom().contains(
            k,
        ) implies tables.discoveries(walk)(k).len() == 0 by {
        internal::lemma_names_dom(walk, k);
    }
    report::law_only(events, internal::names(walk).dom(), tables.discoveries(walk), inode);
}

/// Where the walk gives no path to two inodes, no event is reported twice.
pub proof fn law_no_event_twice(
    tables: InternalView,
    walk: Seq<FoundView>,
    events: Seq<EventView>,
)
    requires
        forall|i: u64, j: u64| #[trigger]
            internal::names(walk).contains_key(i) && #[trigger] internal::names(walk).contains_key(
                j,
            ) && i != j ==> internal::names(walk)[i] != internal::names(walk)[j],
        report::reports(events, internal::names(walk).dom(), tables.discoveries(walk)),
    ensures
        events.no_duplicates(),
{
    let keys = internal::names(walk).dom();
    assert forall|i: u64, j: u64| #[trigger]
        keys.contains(i) && #[trigger] keys.contains(j) && i != j implies report::apart(
        tables.discoveries(walk)(i),
        tables.discoveries(walk)(j),
    ) by {
        assert(internal::names(walk).contains_key(i) && internal::names(walk).contains_key(j));
    }
    report::law_distinct(events, keys, tables.discoveries(walk));
}

/// A file that moves into a directory that was added is renamed, wherever that directory is; one
/// that moves to a directory that nobody has seen is removed.
pub proof fn law_rename_or_remove(
    tables: InternalView,
    target: OpenedView,
    entries: Seq<OpenedView>,
    from: Seq<u8>,
    to: Seq<u8>,
    elsewhere: u64,
)
    requires
        target.stat.kind is TypeDirectory,
        !tables.add(target, entries).inodes.contains(elsewhere),
    ensures
        tables.add(target, entries).rename(from, to, target.stat.inode) == EventView::Rename(
            from,
            to,
        ),
        tables.add(target, entries).rename(from, to, elsewhere) == EventView::Remove(from),
{
    let accepted = seq![target] + entries;
    internal::lemma_register_all_grows(tables, accepted);
    assert(accepted[0] == target);
    assert(tables.register_all(accepted).inodes.contains(accepted[0].stat.inode));
}

} // verus!
