//! The raw records of a recording: one event for each span that was opened.

use vstd::prelude::*;
use crate::span::{Note, NoteView, note_views};

verus! {

/// What an event stands for in contracts.
pub struct EventView {
    /// The event's own identifier: its position in the log it was recorded in.
    pub id: u32,
    /// The identifier of the event that was innermost when this one was opened.
    pub parent: Option<u32>,
    pub name: Seq<char>,
    /// Whether the event was closed as one that may be merged into its predecessor.
    pub collapse: bool,
    pub start_ns: u64,
    pub end_ns: Option<u64>,
    pub delta: Option<u64>,
    pub notes: Seq<NoteView>,
}

impl EventView {
    /// The event has been closed: it carries both its end and its duration.
    pub open spec fn closed(self) -> bool {
        self.end_ns is Some && self.delta is Some
    }

    /// The event as it is right after being opened.
    pub open spec fn opened(id: u32, parent: Option<u32>, name: Seq<char>, now: u64) -> EventView {
        EventView {
            id,
            parent,
            name,
            collapse: false,
            start_ns: now,
            end_ns: None,
            delta: None,
            notes: Seq::empty(),
        }
    }

    /// The event after it has been closed at `now`.
    pub open spec fn close(self, now: u64, collapse: bool) -> EventView {
        EventView {
            collapse,
            end_ns: Some(now),
            delta: Some((now - self.start_ns) as u64),
            ..self
        }
    }

    /// The event with one more note.
    pub open spec fn annotate(self, note: NoteView) -> EventView {
        EventView { notes: self.notes.push(note), ..self }
    }
}

/// One record of the log.
pub(crate) struct Event {
    pub(crate) id: u32,
    pub(crate) parent: Option<u32>,
    pub(crate) name: String,
    pub(crate) collapse: bool,
    pub(crate) start_ns: u64,
    pub(crate) end_ns: Option<u64>,
    pub(crate) delta: Option<u64>,
    pub(crate) notes: Vec<Note>,
}

impl Event {
    /// What the record stands for in contracts.
    pub(crate) open spec fn view(&self) -> EventView {
        EventView {
            id: self.id,
            parent: self.parent,
            name: self.name@,
            collapse: self.collapse,
            start_ns: self.start_ns,
            end_ns: self.end_ns,
            delta: self.delta,
            notes: note_views(self.notes@),
        }
    }
}

/// The values of a sequence of events.
pub(crate) open spec fn event_views(events: Seq<Event>) -> Seq<EventView> {
    Seq::new(events.len(), |i: int| events[i]@)
}

/// How deep the event at `i` lies below the root of its tree: the number of
/// parent links that lead from it to an event without a parent.
pub open spec fn level(log: Seq<EventView>, i: int) -> nat
    decreases i,
{
    if 0 <= i < log.len() {
        match log[i].parent {
            Some(p) => if p < i {
                level(log, p as int) + 1
            } else {
                0
            },
            None => 0,
        }
    } else {
        0
    }
}

/// Each event is identified by its position, and a parent stands before its
/// children.
pub open spec fn indexed(log: Seq<EventView>) -> bool {
    &&& log.len() <= u32::MAX
    &&& forall|i: int| 0 <= i < log.len() ==> (#[trigger] log[i]).id == i
    &&& forall|i: int|
        0 <= i < log.len() ==> ((#[trigger] log[i]).parent matches Some(p) ==> p < i)
}

/// A closed event ends no earlier than it starts and lasts from its start to its
/// end, and of two events with the same parent the earlier one has ended before
/// the later one starts.
pub open spec fn timed(log: Seq<EventView>) -> bool {
    &&& forall|i: int|
        0 <= i < log.len() && (#[trigger] log[i]).closed() ==> {
            &&& log[i].start_ns <= log[i].end_ns->0
            &&& log[i].delta->0 == log[i].end_ns->0 - log[i].start_ns
        }
    &&& forall|i: int, j: int|
        0 <= i < j < log.len() && (#[trigger] log[i]).parent == (#[trigger] log[j]).parent ==> {
            &&& log[i].closed()
            &&& log[i].end_ns->0 <= log[j].start_ns
        }
}

/// No event lies deeper than a span's depth can say.
pub open spec fn shallow(log: Seq<EventView>) -> bool {
    forall|i: int| 0 <= i < log.len() ==> #[trigger] level(log, i) <= u16::MAX
}

/// What a log must satisfy for its trees to be built without overflow. Every log
/// that a recording context produces does.
pub open spec fn buildable(log: Seq<EventView>) -> bool {
    indexed(log) && timed(log) && shallow(log)
}

} // verus!
