//! What a watcher tells its client.
use vstd::prelude::*;

use crate::path::Path;

verus! {

/// A change that a watcher has seen.
#[derive(Debug, PartialEq, Eq)]
pub enum Event {
    /// A file or directory has appeared under this path.
    Create(Path),
    /// What stood under this path is gone from the watched directories.
    Remove(Path),
    /// The contents of the file under this path have changed.
    Modify(Path),
    /// What stood under the first path now stands under the second.
    Rename(Path, Path),
}

/// An event with its paths as byte sequences.
pub enum EventView {
    Create(Seq<u8>),
    Remove(Seq<u8>),
    Modify(Seq<u8>),
    Rename(Seq<u8>, Seq<u8>),
}

impl View for Event {
    type V = EventView;

    open spec fn view(&self) -> EventView {
        match self {
            Event::Create(path) => EventView::Create(path@),
            Event::Remove(path) => EventView::Remove(path@),
            Event::Modify(path) => EventView::Modify(path@),
            Event::Rename(from, to) => EventView::Rename(from@, to@),
        }
    }
}

/// The contents of a list of events.
pub open spec fn contents(events: Seq<Event>) -> Seq<EventView> {
    events.map_values(|event: Event| event@)
}

/// Whether an event tells exactly this.
pub open spec fn tells(event: Event, what: EventView) -> bool {
    match (event, what) {
        (Event::Create(path), EventView::Create(p)) => path@ == p,
        (Event::Remove(path), EventView::Remove(p)) => path@ == p,
        (Event::Modify(path), EventView::Modify(p)) => path@ == p,
        (Event::Rename(from, to), EventView::Rename(f, t)) => from@ == f && to@ == t,
        _ => false,
    }
}

/// Whether one of the events tells exactly this.
pub open spec fn told(events: Seq<Event>, what: EventView) -> bool {
    exists|i: int| 0 <= i < events.len() && tells(#[trigger] events[i], what)
}

/// The contents of events are what they tell, one for one.
pub proof fn law_contents(events: Seq<Event>, what: EventView)
    ensures
        contents(events).len() == events.len(),
        forall|i: int|
            0 <= i < events.len() ==> (tells(#[trigger] events[i], what) <==> contents(events)[i]
                == what),
        told(events, what) <==> contents(events).contains(what),
{
    if told(events, what) {
        let i = choose|i: int| 0 <= i < events.len() && tells(#[trigger] events[i], what);
        assert(contents(events)[i] == what);
    }
    if contents(events).contains(what) {
        let i = choose|i: int| 0 <= i < contents(events).len() && contents(events)[i] == what;
        assert(tells(events[i], what));
    }
}

} // verus!
