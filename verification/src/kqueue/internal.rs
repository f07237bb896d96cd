//! What the watcher knows: its open descriptors, what they stand for, and what it has seen.
use std::collections::{HashMap, HashSet};

use vstd::prelude::*;
use vstd::std_specs::iter::IteratorSpec;

use crate::event;
use crate::event::{Event, EventView};
use crate::kqueue::flags::{Bits, EVFILT_VNODE, NOTE_DELETE, NOTE_RENAME, NOTE_WRITE};
use crate::kqueue::kernel;
use crate::kqueue::kernel::kevent;
use crate::kqueue::queue::FileHandler;
use crate::path::Path;
use crate::report;
use crate::stat;
use crate::stat::{FileStat, FileType, Found, FoundView};

verus! {

broadcast use vstd::std_specs::hash::group_hash_axioms;

/// A file type in a table.
#[derive(Debug)]
pub struct ClonableFileType(pub FileType);

impl Clone for ClonableFileType {
    fn clone(&self) -> (copy: ClonableFileType)
        ensures
            copy == *self,
    {
        match *self {
            ClonableFileType(FileType::TypeFile) => ClonableFileType(FileType::TypeFile),
            ClonableFileType(FileType::TypeDirectory) => ClonableFileType(FileType::TypeDirectory),
            ClonableFileType(FileType::TypeNamedPipe) => ClonableFileType(FileType::TypeNamedPipe),
            ClonableFileType(FileType::TypeBlockSpecial) => ClonableFileType(
                FileType::TypeBlockSpecial,
            ),
            ClonableFileType(FileType::TypeSymlink) => ClonableFileType(FileType::TypeSymlink),
            ClonableFileType(FileType::TypeUnknown) => ClonableFileType(FileType::TypeUnknown),
        }
    }
}

/// What the watcher remembers of a descriptor.
#[derive(Debug)]
pub struct WatchedFileStat {
    pub path: Path,
    pub kind: ClonableFileType,
    pub modified: u64,
    pub inode: u64,
}

/// A remembered descriptor with its path as a byte sequence.
pub struct StatView {
    pub path: Seq<u8>,
    pub kind: FileType,
    pub modified: u64,
    pub inode: u64,
}

impl View for WatchedFileStat {
    type V = StatView;

    open spec fn view(&self) -> StatView {
        StatView {
            path: self.path@,
            kind: self.kind.0,
            modified: self.modified,
            inode: self.inode,
        }
    }
}

/// What is remembered of something with this path and status.
pub open spec fn remembered(path: Seq<u8>, stat: FileStat) -> StatView {
    StatView { path, kind: stat.kind, modified: stat.modified, inode: stat.inode }
}

impl WatchedFileStat {
    pub fn new(path: Path, stat: &FileStat) -> (watched: WatchedFileStat)
        ensures
            watched@ == remembered(path@, *stat),
            watched.path@ == path@,
            watched.kind.0 == stat.kind,
            watched.modified == stat.modified,
            watched.inode == stat.inode,
    {
        WatchedFileStat {
            path,
            kind: ClonableFileType(stat.kind),
            modified: stat.modified,
            inode: stat.inode,
        }
    }
}

impl Clone for WatchedFileStat {
    fn clone(&self) -> (copy: WatchedFileStat)
        ensures
            copy@ == self@,
            copy.path@ == self.path@,
            copy.kind == self.kind,
            copy.modified == self.modified,
            copy.inode == self.inode,
    {
        WatchedFileStat {
            path: self.path.clone(),
            kind: self.kind.clone(),
            modified: self.modified,
            inode: self.inode,
        }
    }
}

/// Something that has been opened in order to be watched.
#[derive(Debug)]
pub struct Opened {
    pub path: Path,
    pub handler: FileHandler,
    pub stat: FileStat,
}

/// Something opened, with its path as a byte sequence.
pub struct OpenedView {
    pub path: Seq<u8>,
    pub handler: FileHandler,
    pub stat: FileStat,
}

impl View for Opened {
    type V = OpenedView;

    open spec fn view(&self) -> OpenedView {
        OpenedView { path: self.path@, handler: self.handler, stat: self.stat }
    }
}

/// The contents of a list of opened things.
pub open spec fn contents(opened: Seq<Opened>) -> Seq<OpenedView> {
    opened.map_values(|one: Opened| one@)
}

/// The handlers of a list of opened things.
pub open spec fn handlers(opened: Seq<OpenedView>) -> Seq<FileHandler> {
    opened.map_values(|one: OpenedView| one.handler)
}

/// The opened things as a walk comes upon them.
pub open spec fn finds(opened: Seq<OpenedView>) -> Seq<FoundView> {
    opened.map_values(|one: OpenedView| FoundView { path: one.path, stat: one.stat })
}

/// The requests to watch a list of opened things, one for each of them.
pub open spec fn requests(opened: Seq<OpenedView>) -> Seq<kevent> {
    opened.map_values(|one: OpenedView| kernel::vnode_request(one.handler.fd))
}

/// The paths of a walk by inode. Of two finds with one inode the later counts.
pub open spec fn names(walk: Seq<FoundView>) -> Map<u64, Seq<u8>>
    decreases walk.len(),
{
    if walk.len() == 0 {
        Map::empty()
    } else {
        names(walk.drop_last()).insert(walk.last().stat.inode, walk.last().path)
    }
}

/// The contents of a table of names.
pub open spec fn name_table(paths: Map<u64, Path>) -> Map<u64, Seq<u8>> {
    paths.map_values(|path: Path| path@)
}

/// Why an event is of no interest.
#[derive(Debug, Clone, Copy, PartialEq, Eq, Structural)]
pub enum Ignored {
    /// Its descriptor is not registered.
    Unregistered,
    /// It is not about a file.
    NotVnode,
    /// It is about a file or a directory, but nothing that anybody asked for has happened.
    Uninteresting,
    /// What its descriptor stands for is neither a file nor a directory.
    NotFileOrDirectory,
}

/// What follows from an event.
#[derive(Debug)]
pub enum Outcome {
    /// Nothing.
    Ignore(Ignored),
    /// The client is to hear of it, and a descriptor may be done with.
    Report { event: Event, closed: Option<FileHandler> },
    /// The file behind the descriptor has got another name, which is to be found out.
    Locate { fd: i32, path: Path },
    /// Something in the directory has changed: it is to be walked through.
    Scan { inode: u64, path: Path },
}

/// An outcome with its paths as byte sequences.
pub enum OutcomeView {
    Ignore(Ignored),
    Report { event: EventView, closed: Option<FileHandler> },
    Locate { fd: i32, path: Seq<u8> },
    Scan { inode: u64, path: Seq<u8> },
}

impl View for Outcome {
    type V = OutcomeView;

    open spec fn view(&self) -> OutcomeView {
        match self {
            Outcome::Ignore(why) => OutcomeView::Ignore(*why),
            Outcome::Report { event, closed } => OutcomeView::Report {
                event: event@,
                closed: *closed,
            },
            Outcome::Locate { fd, path } => OutcomeView::Locate { fd: *fd, path: path@ },
            Outcome::Scan { inode, path } => OutcomeView::Scan { inode: *inode, path: path@ },
        }
    }
}

/// What comes of adding a path to the watched ones.
#[derive(Debug)]
pub struct Added {
    /// The requests for the kernel.
    pub input: Vec<kevent>,
    /// The handlers that are not needed (any longer) and are to be closed.
    pub closed: Vec<FileHandler>,
}

/// The tables of the watcher.
#[derive(Debug)]
pub struct Internal {
    fds: HashMap<i32, FileHandler>,
    paths: HashMap<i32, WatchedFileStat>,
    inodes: HashSet<u64>,
    stats: HashMap<u64, HashMap<u64, Path>>,
}

/// The contents of the tables.
pub struct InternalView {
    /// The open handlers by descriptor.
    pub fds: Map<i32, FileHandler>,
    /// What the descriptors stand for. An entry outlives the handler of its descriptor.
    pub paths: Map<i32, StatView>,
    /// Every inode that has been seen.
    pub inodes: Set<u64>,
    /// For each watched directory what the last walk through it has found.
    pub stats: Map<u64, Map<u64, Seq<u8>>>,
}

impl View for Internal {
    type V = InternalView;

    closed spec fn view(&self) -> InternalView {
        InternalView {
            fds: self.fds@,
            paths: self.paths@.map_values(|stat: WatchedFileStat| stat@),
            inodes: self.inodes@,
            stats: self.stats@.map_values(|paths: HashMap<u64, Path>| name_table(paths@)),
        }
    }
}

impl InternalView {
    /// The tables fit together: a handler stands under its own descriptor and what it stands for
    /// is known, and everything that any of the tables knows has its inode among the seen ones.
    pub open spec fn wf(self) -> bool {
        &&& forall|fd: i32| #[trigger]
            self.fds.contains_key(fd) ==> self.fds[fd].fd == fd && self.paths.contains_key(fd)
        &&& forall|fd: i32| #[trigger]
            self.paths.contains_key(fd) ==> self.inodes.contains(self.paths[fd].inode)
        &&& forall|dir: u64| #[trigger]
            self.stats.contains_key(dir) ==> self.inodes.contains(dir) && self.stats[dir].dom()
                <= self.inodes
    }

    /// The tables with one more opened thing in them.
    pub open spec fn register(self, one: OpenedView) -> InternalView {
        InternalView {
            fds: self.fds.insert(one.handler.fd, one.handler),
            paths: self.paths.insert(one.handler.fd, remembered(one.path, one.stat)),
            inodes: self.inodes.insert(one.stat.inode),
            stats: self.stats,
        }
    }

    /// The tables with opened things entered one after the other.
    pub open spec fn register_all(self, opened: Seq<OpenedView>) -> InternalView
        decreases opened.len(),
    {
        if opened.len() == 0 {
            self
        } else {
            self.register_all(opened.drop_last()).register(opened.last())
        }
    }

    /// The handler that has to make way for another one with the descriptor `fd`.
    pub open spec fn displaced(self, fd: i32) -> Seq<FileHandler> {
        if self.fds.contains_key(fd) {
            seq![self.fds[fd]]
        } else {
            Seq::empty()
        }
    }

    /// The handlers that have to make way while opened things are entered one after the other.
    pub open spec fn displaced_by_all(self, opened: Seq<OpenedView>) -> Seq<FileHandler>
        decreases opened.len(),
    {
        if opened.len() == 0 {
            Seq::empty()
        } else {
            self.displaced_by_all(opened.drop_last()) + self.register_all(
                opened.drop_last(),
            ).displaced(opened.last().handler.fd)
        }
    }

    /// The things that are registered when `target` is added: a file alone, a directory together
    /// with everything in it, and nothing else at all.
    pub open spec fn accepted(target: OpenedView, entries: Seq<OpenedView>) -> Seq<OpenedView> {
        match target.stat.kind {
            FileType::TypeFile => seq![target],
            FileType::TypeDirectory => seq![target] + entries,
            _ => Seq::empty(),
        }
    }

    /// The things that were opened in vain when `target` is added.
    pub open spec fn rejected(target: OpenedView, entries: Seq<OpenedView>) -> Seq<OpenedView> {
        match target.stat.kind {
            FileType::TypeFile => entries,
            FileType::TypeDirectory => Seq::empty(),
            _ => seq![target] + entries,
        }
    }

    /// The tables after `target` has been added. For a directory they also keep what is in it.
    pub open spec fn add(self, target: OpenedView, entries: Seq<OpenedView>) -> InternalView {
        let next = self.register_all(InternalView::accepted(target, entries));
        if target.stat.kind is TypeDirectory {
            InternalView {
                stats: next.stats.insert(target.stat.inode, names(finds(entries))),
                ..next
            }
        } else {
            next
        }
    }

    /// What follows from the event `ev`.
    ///
    /// Of a file the client hears, in this order of precedence, that it was written to, that it
    /// was deleted, or that it was renamed. Of a directory only writing counts.
    pub open spec fn outcome(self, ev: kevent) -> OutcomeView {
        let fd = kernel::descriptor_of(ev.ident);
        let stat = self.paths[fd];
        if !self.paths.contains_key(fd) {
            OutcomeView::Ignore(Ignored::Unregistered)
        } else if !ev.filter.meets(EVFILT_VNODE) {
            OutcomeView::Ignore(Ignored::NotVnode)
        } else {
            match stat.kind {
                FileType::TypeFile => if ev.fflags.meets(NOTE_WRITE) {
                    OutcomeView::Report { event: EventView::Modify(stat.path), closed: None }
                } else if ev.fflags.meets(NOTE_DELETE) {
                    OutcomeView::Report {
                        event: EventView::Remove(stat.path),
                        closed: if self.fds.contains_key(fd) {
                            Some(self.fds[fd])
                        } else {
                            None
                        },
                    }
                } else if ev.fflags.meets(NOTE_RENAME) {
                    OutcomeView::Locate { fd, path: stat.path }
                } else {
                    OutcomeView::Ignore(Ignored::Uninteresting)
                },
                FileType::TypeDirectory => if ev.fflags.meets(NOTE_WRITE) {
                    OutcomeView::Scan { inode: stat.inode, path: stat.path }
                } else {
                    OutcomeView::Ignore(Ignored::Uninteresting)
                },
                _ => OutcomeView::Ignore(Ignored::NotFileOrDirectory),
            }
        }
    }

    /// The tables after the event `ev`: a removed file's handler is no longer among them.
    pub open spec fn process(self, ev: kevent) -> InternalView {
        match self.outcome(ev) {
            OutcomeView::Report { event: EventView::Remove(_), .. } => InternalView {
                fds: self.fds.remove(kernel::descriptor_of(ev.ident)),
                ..self
            },
            _ => self,
        }
    }

    /// What the client hears of a file that stood under `path` and now stands under `newpath`, in
    /// a directory with the inode `dirinode`.
    pub open spec fn rename(self, path: Seq<u8>, newpath: Seq<u8>, dirinode: u64) -> EventView {
        if self.inodes.contains(dirinode) {
            EventView::Rename(path, newpath)
        } else {
            EventView::Remove(path)
        }
    }

    /// The events that a walk gives, by inode: whatever has not been seen before is new.
    pub open spec fn discoveries(self, walk: Seq<FoundView>) -> spec_fn(u64) -> Seq<EventView> {
        |inode: u64|
            if self.inodes.contains(inode) {
                Seq::empty()
            } else {
                seq![EventView::Create(names(walk)[inode])]
            }
    }

    /// The tables after a walk through the directory with the inode `dir`. Of a directory that
    /// was not itself added nothing is kept.
    pub open spec fn scan(self, dir: u64, walk: Seq<FoundView>) -> InternalView {
        if self.stats.contains_key(dir) {
            InternalView {
                inodes: self.inodes.union(names(walk).dom()),
                stats: self.stats.insert(dir, names(walk)),
                ..self
            }
        } else {
            self
        }
    }
}

/// Entering one thing more after others.
proof fn lemma_one_more(tables: InternalView, opened: Seq<OpenedView>, one: OpenedView)
    ensures
        tables.register_all(opened.push(one)) == tables.register_all(opened).register(one),
        tables.displaced_by_all(opened.push(one)) == tables.displaced_by_all(opened)
            + tables.register_all(opened).displaced(one.handler.fd),
        requests(opened.push(one)) == requests(opened).push(
            kernel::vnode_request(one.handler.fd),
        ),
        handlers(opened.push(one)) == handlers(opened).push(one.handler),
{
    assert(opened.push(one).drop_last() =~= opened);
    assert(requests(opened.push(one)) =~= requests(opened).push(
        kernel::vnode_request(one.handler.fd),
    ));
    assert(handlers(opened.push(one)) =~= handlers(opened).push(one.handler));
}

/// Entering things keeps whatever was known before, and enters each of the things.
pub proof fn lemma_register_all_grows(tables: InternalView, opened: Seq<OpenedView>)
    ensures
        tables.inodes <= tables.register_all(opened).inodes,
        tables.paths.dom() <= tables.register_all(opened).paths.dom(),
        forall|i: int|
            0 <= i < opened.len() ==> tables.register_all(opened).paths.contains_key(
                #[trigger] opened[i].handler.fd,
            ),
        forall|i: int|
            0 <= i < opened.len() ==> tables.register_all(opened).inodes.contains(
                #[trigger] opened[i].stat.inode,
            ),
    decreases opened.len(),
{
    if opened.len() > 0 {
        let rest = opened.drop_last();
        lemma_register_all_grows(tables, rest);
        assert forall|i: int| 0 <= i < opened.len() implies tables.register_all(
            opened,
        ).paths.contains_key(#[trigger] opened[i].handler.fd) by {
            if i < rest.len() {
                assert(rest[i] == opened[i]);
            }
        }
        assert forall|i: int| 0 <= i < opened.len() implies tables.register_all(
            opened,
        ).inodes.contains(#[trigger] opened[i].stat.inode) by {
            if i < rest.len() {
                assert(rest[i] == opened[i]);
            }
        }
    }
}

/// Entering things keeps the tables fitting together, and what they knew of directories.
proof fn lemma_register_all_wf(tables: InternalView, opened: Seq<OpenedView>)
    requires
        tables.wf(),
    ensures
        tables.register_all(opened).wf(),
        tables.register_all(opened).stats == tables.stats,
    decreases opened.len(),
{
    if opened.len() > 0 {
        lemma_register_all_wf(tables, opened.drop_last());
    }
}

/// What a walk comes upon is under its inode among the names, and nothing else is.
pub proof fn lemma_names_dom(walk: Seq<FoundView>, inode: u64)
    ensures
        names(walk).contains_key(inode) <==> exists|i: int|
            0 <= i < walk.len() && #[trigger] walk[i].stat.inode == inode,
    decreases walk.len(),
{
    if walk.len() > 0 {
        let rest = walk.drop_last();
        lemma_names_dom(rest, inode);
        if names(rest).contains_key(inode) {
            let i = choose|i: int| 0 <= i < rest.len() && #[trigger] rest[i].stat.inode == inode;
            assert(walk[i].stat.inode == inode);
        }
        if walk.last().stat.inode == inode {
            assert(walk[walk.len() - 1].stat.inode == inode);
        }
        if exists|i: int| 0 <= i < walk.len() && #[trigger] walk[i].stat.inode == inode {
            let i = choose|i: int| 0 <= i < walk.len() && #[trigger] walk[i].stat.inode == inode;
            if i < rest.len() {
                assert(rest[i].stat.inode == inode);
            }
        }
    }
}

proof fn lemma_add_directory_wf(
    tables: InternalView,
    target: OpenedView,
    entries: Seq<OpenedView>,
)
    requires
        tables.wf(),
        target.stat.kind is TypeDirectory,
    ensures
        tables.add(target, entries).wf(),
{
    let accepted = seq![target] + entries;
    let next = tables.register_all(accepted);
    lemma_register_all_wf(tables, accepted);
    lemma_register_all_grows(tables, accepted);
    assert(accepted[0] == target);
    assert(next.inodes.contains(accepted[0].stat.inode));
    assert forall|inode: u64| names(finds(entries)).contains_key(
        inode,
    ) implies next.inodes.contains(inode) by {
        lemma_names_dom(finds(entries), inode);
        let i = choose|i: int|
            0 <= i < entries.len() && #[trigger] finds(entries)[i].stat.inode == inode;
        assert(accepted[i + 1] == entries[i]);
        assert(next.inodes.contains(accepted[i + 1].stat.inode));
    }
}

/// Adds the handlers of `opened` to `closed`.
fn hand_back(opened: &Vec<Opened>, closed: &mut Vec<FileHandler>)
    ensures
        final(closed)@ == old(closed)@ + handlers(contents(opened@)),
{
    let ghost all = contents(opened@);
    let mut i: usize = 0;
    proof {
        assert(handlers(all.take(0)) =~= Seq::empty());
    }
    while i < opened.len()
        invariant
            i <= opened@.len(),
            all == contents(opened@),
            closed@ == old(closed)@ + handlers(all.take(i as int)),
        decreases opened@.len() - i,
    {
        closed.push(FileHandler { fd: opened[i].handler.fd });
        proof {
            assert(handlers(all.take(i + 1)) =~= handlers(all.take(i as int)).push(
                opened@[i as int].handler,
            ));
        }
        i = i + 1;
    }
    proof {
        assert(all.take(opened@.len() as int) =~= all);
    }
}

impl Internal {
    /// Empty tables.
    pub fn new() -> (internal: Internal)
        ensures
            internal@ == (InternalView {
                fds: Map::empty(),
                paths: Map::empty(),
                inodes: Set::empty(),
                stats: Map::empty(),
            }),
            internal@.wf(),
    {
        let internal = Internal {
            fds: HashMap::new(),
            paths: HashMap::new(),
            inodes: HashSet::new(),
            stats: HashMap::new(),
        };
        proof {
            assert(internal@.paths =~= Map::empty());
            assert(internal@.stats =~= Map::empty());
        }
        internal
    }

    /// Enters one opened thing. The answer is the handler that had to make way.
    fn register(&mut self, one: &Opened) -> (old_handler: Option<FileHandler>)
        ensures
            final(self)@ == old(self)@.register(one@),
            old_handler == (if old(self)@.fds.contains_key(one.handler.fd) {
                Some(old(self)@.fds[one.handler.fd])
            } else {
                None
            }),
    {
        let fd: i32 = one.handler.fd;
        let old_handler = self.fds.insert(fd, FileHandler { fd });
        let watched = WatchedFileStat::new(one.path.clone(), &one.stat);
        self.paths.insert(fd, watched);
        self.inodes.insert(one.stat.inode);
        proof {
            assert(self@.paths =~= old(self)@.paths.insert(fd, watched@));
        }
        old_handler
    }

    /// Registers `target`, which was opened to be watched, and for a directory also `entries`,
    /// everything that a walk through it came upon.
    pub fn add(&mut self, target: Opened, entries: Vec<Opened>) -> (added: Added)
        requires
            old(self)@.wf(),
        ensures
            final(self)@ == old(self)@.add(target@, contents(entries@)),
            final(self)@.wf(),
            added.input@ == requests(InternalView::accepted(target@, contents(entries@))),
            added.closed@ == old(self)@.displaced_by_all(
                InternalView::accepted(target@, contents(entries@)),
            ) + handlers(InternalView::rejected(target@, contents(entries@))),
    {
        let mut input: Vec<kevent> = Vec::new();
        let mut closed: Vec<FileHandler> = Vec::new();
        let ghost all = contents(entries@);
        let ghost none = Seq::<OpenedView>::empty();
        proof {
            lemma_register_all_wf(old(self)@, InternalView::accepted(target@, all));
            assert(requests(none) =~= Seq::empty());
            assert(handlers(none) =~= Seq::empty());
        }
        match target.stat.kind {
            FileType::TypeFile => {
                proof {
                    lemma_one_more(old(self)@, none, target@);
                    assert(none.push(target@) =~= seq![target@]);
                }
                self.watch_one(&target, &mut input, &mut closed);
                hand_back(&entries, &mut closed);
            },
            FileType::TypeDirectory => {
                proof {
                    lemma_one_more(old(self)@, none, target@);
                    assert(none.push(target@) =~= seq![target@] + all.take(0));
                    assert(finds(all.take(0)) =~= Seq::empty());
                }
                self.watch_one(&target, &mut input, &mut closed);
                let mut curr: HashMap<u64, Path> = HashMap::new();
                proof {
                    assert(name_table(curr@) =~= Map::empty());
                }
                let mut i: usize = 0;
                while i < entries.len()
                    invariant
                        i <= entries@.len(),
                        all == contents(entries@),
                        self@ == old(self)@.register_all(seq![target@] + all.take(i as int)),
                        name_table(curr@) == names(finds(all.take(i as int))),
                        input@ == requests(seq![target@] + all.take(i as int)),
                        closed@ == old(self)@.displaced_by_all(
                            seq![target@] + all.take(i as int),
                        ),
                    decreases entries@.len() - i,
                {
                    let one = &entries[i];
                    let ghost before = seq![target@] + all.take(i as int);
                    let ghost known = curr@;
                    proof {
                        lemma_one_more(old(self)@, before, one@);
                        assert(before.push(one@) =~= seq![target@] + all.take(i + 1));
                        assert(finds(all.take(i + 1)).drop_last() =~= finds(all.take(i as int)));
                    }
                    self.watch_one(one, &mut input, &mut closed);
                    let path = one.path.clone();
                    curr.insert(one.stat.inode, path);
                    proof {
                        assert(name_table(curr@) =~= name_table(known).insert(
                            one.stat.inode,
                            path@,
                        ));
                    }
                    i = i + 1;
                }
                let ghost registered = self@;
                self.stats.insert(target.stat.inode, curr);
                proof {
                    assert(all.take(entries@.len() as int) =~= all);
                    assert(self@.stats =~= registered.stats.insert(
                        target.stat.inode,
                        name_table(curr@),
                    ));
                    lemma_add_directory_wf(old(self)@, target@, all);
                    assert(handlers(none) =~= Seq::empty());
                }
            },
            _ => {
                closed.push(FileHandler { fd: target.handler.fd });
                hand_back(&entries, &mut closed);
                proof {
                    assert(handlers(seq![target@] + all) =~= seq![target.handler] + handlers(all));
                }
            },
        }
        Added { input, closed }
    }

    /// Enters one opened thing, and adds the request for it and the handler that had to make way
    /// to the lists.
    fn watch_one(
        &mut self,
        one: &Opened,
        input: &mut Vec<kevent>,
        closed: &mut Vec<FileHandler>,
    )
        ensures
            final(self)@ == old(self)@.register(one@),
            final(input)@ == old(input)@.push(kernel::vnode_request(one.handler.fd)),
            final(closed)@ == old(closed)@ + old(self)@.displaced(one.handler.fd),
    {
        if let Some(handler) = self.register(one) {
            closed.push(handler);
        }
        input.push(kevent::watching(one.handler.fd));
    }

    /// What follows from the event `ev`.
    pub fn process(&mut self, ev: &kevent) -> (outcome: Outcome)
        requires
            old(self)@.wf(),
        ensures
            outcome@ == old(self)@.outcome(*ev),
            final(self)@ == old(self)@.process(*ev),
            final(self)@.wf(),
    {
        let fd: i32 = ev.descriptor();
        let stat = match self.paths.get(&fd) {
            Some(stat) => stat.clone(),
            None => {
                return Outcome::Ignore(Ignored::Unregistered);
            },
        };
        if !ev.filter.intersects(EVFILT_VNODE) {
            return Outcome::Ignore(Ignored::NotVnode);
        }
        let path = stat.path;
        let inode: u64 = stat.inode;
        match stat.kind {
            ClonableFileType(FileType::TypeFile) => {
                if ev.fflags.intersects(NOTE_WRITE) {
                    Outcome::Report { event: Event::Modify(path), closed: None }
                } else if ev.fflags.intersects(NOTE_DELETE) {
                    let closed = self.fds.remove(&fd);
                    Outcome::Report { event: Event::Remove(path), closed }
                } else if ev.fflags.intersects(NOTE_RENAME) {
                    Outcome::Locate { fd, path }
                } else {
                    Outcome::Ignore(Ignored::Uninteresting)
                }
            },
            ClonableFileType(FileType::TypeDirectory) => {
                if ev.fflags.intersects(NOTE_WRITE) {
                    Outcome::Scan { inode, path }
                } else {
                    Outcome::Ignore(Ignored::Uninteresting)
                }
            },
            _ => Outcome::Ignore(Ignored::NotFileOrDirectory),
        }
    }

    /// The path that the descriptor `fd` was registered with.
    pub fn path_of(&self, fd: i32) -> (path: Option<Path>)
        ensures
            path is Some <==> self@.paths.contains_key(fd),
            path matches Some(p) ==> p@ == self@.paths[fd].path,
    {
        match self.paths.get(&fd) {
            Some(stat) => Some(stat.path.clone()),
            None => None,
        }
    }

    /// What the client hears of a file that stood under `path` and now stands under `newpath`, in
    /// a directory with the inode `dirinode`: outside the watched directories it is gone.
    pub fn renamed(&self, path: Path, newpath: Path, dirinode: u64) -> (event: Event)
        ensures
            event@ == self@.rename(path@, newpath@, dirinode),
    {
        if !self.inodes.contains(&dirinode) {
            Event::Remove(path)
        } else {
            Event::Rename(path, newpath)
        }
    }

    /// What the client hears after a walk through the directory with the inode `dir`.
    pub fn scanned(&mut self, dir: u64, walk: Vec<Found>) -> (events: Vec<Event>)
        requires
            old(self)@.wf(),
        ensures
            final(self)@ == old(self)@.scan(dir, stat::contents(walk@)),
            final(self)@.wf(),
            old(self)@.stats.contains_key(dir) ==> report::reports(
                event::contents(events@),
                names(stat::contents(walk@)).dom(),
                old(self)@.discoveries(stat::contents(walk@)),
            ),
            !old(self)@.stats.contains_key(dir) ==> events@.len() == 0,
    {
        let mut events: Vec<Event> = Vec::new();
        let curr = name_walk(&walk);
        let ghost found = stat::contents(walk@);
        let ghost events_of = old(self)@.discoveries(found);
        let ghost seen = old(self)@.inodes;
        match self.stats.get(&dir) {
            Some(prev) => {
                let iter = curr.iter();
                let ghost all = iter.remaining();
                proof {
                    report::lemma_walk_visits(all, curr@);
                    assert(name_table(curr@).dom() =~= curr@.dom());
                    assert(event::contents(events@) =~= Seq::empty());
                    assert(report::keys_of(all, 0).to_set() =~= Set::empty());
                    assert(seen =~= seen.union(report::keys_of(all, 0).to_set()));
                    assert(old(self)@.stats.contains_key(dir));
                    assert(old(self)@.stats[dir] == name_table(prev@));
                }
                for (inode, path) in steps: iter
                    invariant
                        steps.seq() == all,
                        report::visits(report::keys_of(all, all.len() as int), curr@.dom()),
                        forall|i: int|
                            #![trigger all[i]]
                            0 <= i < all.len() ==> curr@.contains_key(*all[i].0)
                                && curr@[*all[i].0] == *all[i].1,
                        name_table(curr@) == names(found),
                        old(self)@.wf(),
                        old(self)@.stats.contains_key(dir),
                        old(self)@.stats[dir] == name_table(prev@),
                        self.fds == old(self).fds,
                        self.paths == old(self).paths,
                        self.stats == old(self).stats,
                        seen == old(self)@.inodes,
                        events_of == old(self)@.discoveries(found),
                        self.inodes@ == seen.union(
                            report::keys_of(all, steps.index() as int).to_set(),
                        ),
                        event::contents(events@) == report::pass(
                            report::keys_of(all, steps.index() as int),
                            events_of,
                        ),
                {
                    let ghost n = steps.index() as int;
                    let ghost before = event::contents(events@);
                    let ghost known = self.inodes@;
                    proof {
                        let keys = report::keys_of(all, all.len() as int);
                        let done = report::keys_of(all, n);
                        report::lemma_walk_step(all, n, events_of);
                        assert(!done.contains(*inode)) by {
                            if done.contains(*inode) {
                                let j = choose|j: int| 0 <= j < n && done[j] == *inode;
                                assert(keys[j] == keys[n]);
                            }
                        }
                        assert(report::keys_of(all, n + 1) =~= done.push(*inode));
                        assert(done.push(*inode).to_set() =~= done.to_set().insert(*inode)) by {
                            done.lemma_push_to_set_commute(*inode);
                        }
                        assert(prev@.contains_key(*inode) ==> name_table(prev@).dom().contains(
                            *inode,
                        ));
                    }
                    if !prev.contains_key(inode) && !self.inodes.contains(inode) {
                        self.inodes.insert(*inode);
                        events.push(Event::Create(path.clone()));
                    }
                    proof {
                        assert(event::contents(events@) =~= before + events_of(*inode));
                        assert(self.inodes@ =~= known.insert(*inode));
                        assert(known.insert(*inode) =~= seen.union(
                            report::keys_of(all, n + 1).to_set(),
                        ));
                    }
                }
            },
            None => {
                return events;
            },
        }
        self.stats.insert(dir, curr);
        proof {
            assert(self@.stats =~= old(self)@.stats.insert(dir, names(found)));
        }
        events
    }

    /// Gives up all handlers.
    pub fn release(&mut self) -> (closed: Vec<FileHandler>)
        requires
            old(self)@.wf(),
        ensures
            final(self)@ == (InternalView { fds: Map::empty(), ..old(self)@ }),
            final(self)@.wf(),
            closed@.no_duplicates(),
            forall|handler: FileHandler| #[trigger]
                closed@.contains(handler) <==> old(self)@.fds.contains_key(handler.fd),
    {
        let mut closed: Vec<FileHandler> = Vec::new();
        let keys = self.fds.keys();
        let ghost all = keys.remaining();
        for fd in steps: keys
            invariant
                steps.seq() == all,
                closed@.len() == steps.index(),
                forall|i: int| 0 <= i < closed@.len() ==> closed@[i].fd == *all[i],
        {
            closed.push(FileHandler { fd: *fd });
        }
        proof {
            assert forall|i: int, j: int|
                0 <= i < closed@.len() && 0 <= j < closed@.len() && i != j implies closed@[i]
                != closed@[j] by {
                assert(all[i] != all[j]);
            }
            assert forall|handler: FileHandler| #[trigger]
                closed@.contains(handler) <==> self@.fds.contains_key(handler.fd) by {
                if closed@.contains(handler) {
                    let i = choose|i: int| 0 <= i < closed@.len() && closed@[i] == handler;
                    assert(all.unref()[i] == handler.fd);
                    assert(all.unref().to_set().contains(handler.fd));
                }
                if self@.fds.contains_key(handler.fd) {
                    assert(all.unref().to_set().contains(handler.fd));
                    let i = choose|i: int| 0 <= i < all.unref().len() && all.unref()[i]
                        == handler.fd;
                    assert(closed@[i] == handler);
                }
            }
        }
        self.fds.clear();
        closed
    }
}

/// The paths of a walk by inode.
fn name_walk(walk: &Vec<Found>) -> (curr: HashMap<u64, Path>)
    ensures
        name_table(curr@) == names(stat::contents(walk@)),
{
    let mut curr: HashMap<u64, Path> = HashMap::new();
    let ghost all = stat::contents(walk@);
    let mut i: usize = 0;
    proof {
        assert(all.take(0) =~= Seq::empty());
        assert(name_table(curr@) =~= Map::empty());
    }
    while i < walk.len()
        invariant
            i <= walk@.len(),
            all == stat::contents(walk@),
            name_table(curr@) == names(all.take(i as int)),
        decreases walk@.len() - i,
    {
        let found = &walk[i];
        let ghost known = curr@;
        let path = found.path.clone();
        curr.insert(found.stat.inode, path);
        proof {
            assert(all.take(i + 1).drop_last() =~= all.take(i as int));
            assert(name_table(curr@) =~= name_table(known).insert(found.stat.inode, path@));
        }
        i = i + 1;
    }
    proof {
        assert(all.take(walk@.len() as int) =~= all);
    }
    curr
}

} // verus!
