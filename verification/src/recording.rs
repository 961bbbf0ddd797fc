//! One recording: a log of events and the stack of those that are still open.
//!
//! Every operation takes the time as an argument, so a recording is a plain
//! state machine: the same calls give the same log.

use vstd::prelude::*;
use crate::event::{Event, EventView, buildable, event_views, indexed, level, shallow, timed};
use crate::span::{Note, NoteView, Span, lemma_note_views_push, span_views};
use crate::tree::{build, convert_events_to_span};

verus! {

/// Why an operation on a recording was refused.
#[derive(Debug, Clone, Copy, PartialEq, Eq, Structural)]
pub enum Error {
    /// Spans were not closed in the reverse of the order in which they were
    /// opened, or something was asked of the innermost open span while none
    /// was open.
    ProtocolViolation,
}

/// What a recording stands for in contracts.
pub struct RecordingView {
    /// The events, in the order in which they were opened.
    pub log: Seq<EventView>,
    /// The identifiers of the events that are still open, outermost first.
    pub open: Seq<u32>,
    /// The latest time that the recording has seen.
    pub latest: u64,
}

impl RecordingView {
    /// The recording in which nothing has happened yet.
    pub open spec fn empty() -> RecordingView {
        RecordingView { log: Seq::empty(), open: Seq::empty(), latest: 0 }
    }

    /// The identifier of the innermost open event, if one is open.
    pub open spec fn innermost(self) -> Option<u32> {
        if self.open.len() > 0 {
            Some(self.open.last())
        } else {
            None
        }
    }

    /// The identifier of the open event right outside the `m`-th one, if that
    /// is not the outermost.
    pub open spec fn outside(self, m: int) -> Option<u32> {
        if m == 0 {
            None
        } else {
            Some(self.open[m - 1])
        }
    }

    /// When the innermost open event was opened.
    pub open spec fn innermost_start(self) -> u64 {
        self.log[self.open.last() as int].start_ns
    }

    /// Whether one more event can be opened: identifiers and depths have not
    /// run out.
    pub open spec fn has_room(self) -> bool {
        self.log.len() < u32::MAX && self.open.len() <= u16::MAX
    }

    /// The recording after an event `name` has been opened at `now`.
    pub open spec fn start(self, name: Seq<char>, now: u64) -> RecordingView {
        let id = self.log.len() as u32;
        RecordingView {
            log: self.log.push(EventView::opened(id, self.innermost(), name, now)),
            open: self.open.push(id),
            latest: now,
        }
    }

    /// Whether the innermost open event exists and is called `name`.
    pub open spec fn can_end(self, name: Seq<char>) -> bool {
        self.open.len() > 0 && self.log[self.open.last() as int].name == name
    }

    /// The recording after its innermost open event has been closed at `now`.
    pub open spec fn end(self, now: u64, collapse: bool) -> RecordingView {
        let id = self.open.last() as int;
        RecordingView {
            log: self.log.update(id, self.log[id].close(now, collapse)),
            open: self.open.drop_last(),
            latest: now,
        }
    }

    /// The recording after a note has been attached to its innermost open event.
    pub open spec fn note(self, note: NoteView) -> RecordingView {
        let id = self.open.last() as int;
        RecordingView {
            log: self.log.update(id, self.log[id].annotate(note)),
            open: self.open,
            latest: note.instant,
        }
    }

    /// The open events form a chain: each one is inside the log and was opened
    /// right inside the one before it, and the outermost has no parent.
    pub open spec fn chained(self) -> bool {
        &&& self.open.len() <= u16::MAX + 1
        &&& forall|m: int| 0 <= m < self.open.len() ==> (#[trigger] self.open[m]) < self.log.len()
        &&& forall|m: int, n: int|
            0 <= m < n < self.open.len() ==> (#[trigger] self.open[m]) < (#[trigger] self.open[n])
        &&& forall|m: int|
            0 <= m < self.open.len() ==> (#[trigger] self.log[self.open[m] as int]).parent
                == self.outside(m)
        &&& forall|m: int|
            0 <= m < self.open.len() ==> #[trigger] level(self.log, self.open[m] as int) == m
    }

    /// An event is closed exactly if it is no longer on the stack of open events.
    pub open spec fn settled(self) -> bool {
        forall|i: int|
            0 <= i < self.log.len() ==> ((#[trigger] self.log[i]).closed() <==> !self.open.contains(
                i as u32,
            ))
    }

    /// Whatever was opened after an event that is still open lies inside it.
    pub open spec fn enclosed(self) -> bool {
        forall|m: int, k: int|
            0 <= m < self.open.len() && (#[trigger] self.open[m]) < k < self.log.len() ==> (
            #[trigger] self.log[k]).parent is Some && self.log[k].parent->0 >= self.open[m]
    }

    /// Nothing in the log happened after the latest time seen.
    pub open spec fn past(self) -> bool {
        forall|i: int|
            0 <= i < self.log.len() ==> {
                &&& (#[trigger] self.log[i]).start_ns <= self.latest
                &&& (self.log[i].end_ns matches Some(e) ==> e <= self.latest)
            }
    }

    /// What holds of every recording that was made by the operations of this
    /// module.
    pub open spec fn wf(self) -> bool {
        &&& buildable(self.log)
        &&& nested(self.log)
        &&& self.chained()
        &&& self.settled()
        &&& self.enclosed()
        &&& self.past()
    }

    /// The trees of the recording.
    pub open spec fn spans(self) -> Seq<crate::span::SpanView> {
        build(self.log)
    }
}

/// Between an event and its parent stand only events that lie inside that
/// parent.
pub open spec fn nested(log: Seq<EventView>) -> bool {
    forall|j: int, k: int|
        0 <= k <= j < log.len() && (#[trigger] log[j]).parent is Some && log[j].parent->0 < k ==> (
        #[trigger] log[k]).parent is Some && log[k].parent->0 >= log[j].parent->0
}

/// The depth of an event depends on the parents of the events up to it alone.
pub proof fn lemma_level_local(a: Seq<EventView>, b: Seq<EventView>, i: int)
    requires
        0 <= i < a.len(),
        i < b.len(),
        forall|k: int| 0 <= k <= i ==> (#[trigger] a[k]).parent == (#[trigger] b[k]).parent,
    ensures
        level(a, i) == level(b, i),
    decreases i,
{
    match a[i].parent {
        Some(p) => {
            if p < i {
                lemma_level_local(a, b, p as int);
            }
        },
        None => {},
    }
}

/// Of two open events the inner one stands higher on the stack; so an event
/// whose parent is the innermost open event is itself not open.
proof fn lemma_child_of_innermost_closed(rv: RecordingView, i: int)
    requires
        rv.wf(),
        0 <= i < rv.log.len(),
        rv.log[i].parent == rv.innermost(),
    ensures
        rv.log[i].closed(),
{
    if rv.open.contains(i as u32) {
        let m = choose|m: int| 0 <= m < rv.open.len() && rv.open[m] == i as u32;
        assert(rv.log[rv.open[m] as int].parent == rv.innermost());
        if rv.open.len() > 0 && m > 0 {
            assert(rv.open[m - 1] == rv.open.last());
            if m - 1 < rv.open.len() - 1 {
                assert(rv.open[m - 1] < rv.open[rv.open.len() - 1]);
            }
        }
    }
}

/// Opening an event keeps a recording well formed.
pub proof fn lemma_start_wf(rv: RecordingView, name: Seq<char>, now: u64)
    requires
        rv.wf(),
        rv.has_room(),
        rv.latest <= now,
    ensures
        rv.start(name, now).wf(),
{
    let n = rv.log.len() as int;
    let after = rv.start(name, now);
    let depth = rv.open.len() as int;
    assert(after.log.len() == n + 1);
    assert(forall|i: int| 0 <= i < n ==> after.log[i] == rv.log[i]);
    assert(after.log[n] == EventView::opened(n as u32, rv.innermost(), name, now));
    assert(forall|m: int| 0 <= m < depth ==> after.open[m] == rv.open[m]);
    assert(after.open[depth] == n as u32);
    if depth > 0 {
        assert(rv.open[depth - 1] < n);
    }
    assert forall|i: int| 0 <= i <= n implies #[trigger] level(after.log, i) == (if i < n {
        level(rv.log, i)
    } else {
        depth as nat
    }) by {
        if i < n {
            lemma_level_local(after.log, rv.log, i);
        } else if depth > 0 {
            let top = rv.open[depth - 1] as int;
            lemma_level_local(after.log, rv.log, top);
            assert(level(rv.log, rv.open[depth - 1] as int) == depth - 1);
        }
    }
    assert(indexed(after.log));
    assert(shallow(after.log));
    assert(timed(after.log)) by {
        assert forall|i: int, j: int|
            0 <= i < j < after.log.len() && (#[trigger] after.log[i]).parent == (
            #[trigger] after.log[j]).parent implies after.log[i].closed()
            && after.log[i].end_ns->0 <= after.log[j].start_ns by {
            if j == n {
                lemma_child_of_innermost_closed(rv, i);
            } else {
                assert(rv.log[i].parent == rv.log[j].parent);
            }
        }
    }
    assert(nested(after.log)) by {
        assert forall|j: int, k: int|
            0 <= k <= j < after.log.len() && (#[trigger] after.log[j]).parent is Some
                && after.log[j].parent->0 < k implies (#[trigger] after.log[k]).parent is Some
            && after.log[k].parent->0 >= after.log[j].parent->0 by {
            if j == n {
                if k < n {
                    assert(rv.open[depth - 1] < k);
                    assert(rv.log[k].parent is Some);
                }
            } else {
                assert(rv.log[j].parent is Some);
                assert(rv.log[k].parent is Some);
            }
        }
    }
    assert(after.chained()) by {
        assert forall|m: int| 0 <= m < after.open.len() implies (
        #[trigger] after.log[after.open[m] as int]).parent == after.outside(m) by {
            if m < depth {
                assert(rv.log[rv.open[m] as int].parent == rv.outside(m));
            }
        }
        assert forall|m: int| 0 <= m < after.open.len() implies #[trigger] level(
            after.log,
            after.open[m] as int,
        ) == m by {
            if m < depth {
                assert(level(rv.log, rv.open[m] as int) == m);
            }
        }
    }
    assert(after.settled()) by {
        assert forall|i: int| 0 <= i < after.log.len() implies ((#[trigger] after.log[i]).closed()
            <==> !after.open.contains(i as u32)) by {
            if i < n {
                assert(rv.log[i].closed() <==> !rv.open.contains(i as u32));
                if rv.open.contains(i as u32) {
                    let m = choose|m: int| 0 <= m < rv.open.len() && rv.open[m] == i as u32;
                    assert(after.open[m] == i as u32);
                }
                if after.open.contains(i as u32) {
                    let m = choose|m: int| 0 <= m < after.open.len() && after.open[m] == i as u32;
                    assert(rv.open[m] == i as u32);
                }
            } else {
                assert(after.open[depth] == i as u32);
            }
        }
    }
    assert(after.enclosed()) by {
        assert forall|m: int, k: int|
            0 <= m < after.open.len() && (#[trigger] after.open[m]) < k < after.log.len() implies (
        #[trigger] after.log[k]).parent is Some && after.log[k].parent->0 >= after.open[m] by {
            if k < n {
                assert(rv.open[m] < k);
                assert(rv.log[k].parent is Some);
            } else {
                if m < depth - 1 {
                    assert(rv.open[m] < rv.open[depth - 1]);
                }
            }
        }
    }
    assert(after.past()) by {
        assert forall|i: int| 0 <= i < after.log.len() implies {
            &&& (#[trigger] after.log[i]).start_ns <= after.latest
            &&& (after.log[i].end_ns matches Some(e) ==> e <= after.latest)
        } by {
            if i < n {
                assert(rv.log[i].start_ns <= rv.latest);
            }
        }
    }
}

/// Closing the innermost open event keeps a recording well formed.
pub proof fn lemma_end_wf(rv: RecordingView, now: u64, collapse: bool)
    requires
        rv.wf(),
        rv.open.len() > 0,
        rv.latest <= now,
    ensures
        rv.end(now, collapse).wf(),
{
    let after = rv.end(now, collapse);
    let depth = rv.open.len() as int;
    let top = rv.open[depth - 1] as int;
    assert(0 <= top < rv.log.len());
    assert(after.log.len() == rv.log.len());
    assert(forall|i: int| 0 <= i < rv.log.len() && i != top ==> after.log[i] == rv.log[i]);
    assert(after.log[top] == rv.log[top].close(now, collapse));
    assert(forall|i: int|
        0 <= i < rv.log.len() ==> (#[trigger] after.log[i]).parent == rv.log[i].parent
            && after.log[i].id == rv.log[i].id && after.log[i].start_ns == rv.log[i].start_ns);
    assert(forall|m: int| 0 <= m < depth - 1 ==> after.open[m] == rv.open[m]);
    assert(rv.log[top].start_ns <= rv.latest);
    assert forall|i: int| 0 <= i < rv.log.len() implies #[trigger] level(after.log, i) == level(
        rv.log,
        i,
    ) by {
        lemma_level_local(after.log, rv.log, i);
    }
    assert(indexed(after.log)) by {
        assert forall|i: int| 0 <= i < after.log.len() implies ((
        #[trigger] after.log[i]).parent matches Some(p) ==> p < i) by {
            assert(rv.log[i].parent matches Some(p) ==> p < i);
        }
    }
    assert(shallow(after.log));
    assert(timed(after.log)) by {
        assert forall|i: int| 0 <= i < after.log.len() && (#[trigger] after.log[i]).closed() implies
            after.log[i].start_ns <= after.log[i].end_ns->0 && after.log[i].delta->0
            == after.log[i].end_ns->0 - after.log[i].start_ns by {
            if i != top {
                assert(rv.log[i].closed());
            }
        }
        assert forall|i: int, j: int|
            0 <= i < j < after.log.len() && (#[trigger] after.log[i]).parent == (
            #[trigger] after.log[j]).parent implies after.log[i].closed()
            && after.log[i].end_ns->0 <= after.log[j].start_ns by {
            assert(rv.log[i].parent == rv.log[j].parent);
            if i == top {
                assert(rv.open[depth - 1] < j);
                assert(rv.log[j].parent is Some && rv.log[j].parent->0 >= top);
                assert(rv.log[rv.open[depth - 1] as int].parent == rv.outside(depth - 1));
                if depth > 1 {
                    assert(rv.open[depth - 2] < rv.open[depth - 1]);
                }
            }
        }
    }
    assert(nested(after.log)) by {
        assert forall|j: int, k: int|
            0 <= k <= j < after.log.len() && (#[trigger] after.log[j]).parent is Some
                && after.log[j].parent->0 < k implies (#[trigger] after.log[k]).parent is Some
            && after.log[k].parent->0 >= after.log[j].parent->0 by {
            assert(rv.log[j].parent is Some);
            assert(rv.log[k].parent is Some);
        }
    }
    assert(after.chained()) by {
        assert forall|m: int| 0 <= m < after.open.len() implies (
        #[trigger] after.log[after.open[m] as int]).parent == after.outside(m) by {
            assert(rv.log[rv.open[m] as int].parent == rv.outside(m));
        }
        assert forall|m: int| 0 <= m < after.open.len() implies #[trigger] level(
            after.log,
            after.open[m] as int,
        ) == m by {
            assert(level(rv.log, rv.open[m] as int) == m);
        }
    }
    assert(after.settled()) by {
        assert forall|i: int| 0 <= i < after.log.len() implies ((#[trigger] after.log[i]).closed()
            <==> !after.open.contains(i as u32)) by {
            assert(rv.log[i].closed() <==> !rv.open.contains(i as u32));
            if after.open.contains(i as u32) {
                let m = choose|m: int| 0 <= m < after.open.len() && after.open[m] == i as u32;
                assert(rv.open[m] == i as u32);
                assert(rv.open[m] < rv.open[depth - 1]);
            }
            if i != top && rv.open.contains(i as u32) {
                let m = choose|m: int| 0 <= m < rv.open.len() && rv.open[m] == i as u32;
                assert(after.open[m] == i as u32);
            }
        }
    }
    assert(after.enclosed()) by {
        assert forall|m: int, k: int|
            0 <= m < after.open.len() && (#[trigger] after.open[m]) < k < after.log.len() implies (
        #[trigger] after.log[k]).parent is Some && after.log[k].parent->0 >= after.open[m] by {
            assert(rv.open[m] < k);
            assert(rv.log[k].parent is Some);
        }
    }
    assert(after.past()) by {
        assert forall|i: int| 0 <= i < after.log.len() implies {
            &&& (#[trigger] after.log[i]).start_ns <= after.latest
            &&& (after.log[i].end_ns matches Some(e) ==> e <= after.latest)
        } by {
            assert(rv.log[i].start_ns <= rv.latest);
        }
    }
}

/// Attaching a note to the innermost open event keeps a recording well formed.
pub proof fn lemma_note_wf(rv: RecordingView, note: NoteView)
    requires
        rv.wf(),
        rv.open.len() > 0,
        rv.latest <= note.instant,
    ensures
        rv.note(note).wf(),
{
    let after = rv.note(note);
    let depth = rv.open.len() as int;
    let top = rv.open[depth - 1] as int;
    assert(0 <= top < rv.log.len());
    assert(after.log.len() == rv.log.len());
    assert(forall|i: int| 0 <= i < rv.log.len() && i != top ==> after.log[i] == rv.log[i]);
    assert(after.log[top] == rv.log[top].annotate(note));
    assert(forall|i: int|
        0 <= i < rv.log.len() ==> (#[trigger] after.log[i]).parent == rv.log[i].parent
            && after.log[i].id == rv.log[i].id && after.log[i].start_ns == rv.log[i].start_ns
            && after.log[i].end_ns == rv.log[i].end_ns && after.log[i].delta == rv.log[i].delta);
    assert forall|i: int| 0 <= i < rv.log.len() implies #[trigger] level(after.log, i) == level(
        rv.log,
        i,
    ) by {
        lemma_level_local(after.log, rv.log, i);
    }
    assert(indexed(after.log)) by {
        assert forall|i: int| 0 <= i < after.log.len() implies ((
        #[trigger] after.log[i]).parent matches Some(p) ==> p < i) by {
            assert(rv.log[i].parent matches Some(p) ==> p < i);
        }
    }
    assert(shallow(after.log));
    assert(timed(after.log)) by {
        assert forall|i: int| 0 <= i < after.log.len() && (#[trigger] after.log[i]).closed() implies
            after.log[i].start_ns <= after.log[i].end_ns->0 && after.log[i].delta->0
            == after.log[i].end_ns->0 - after.log[i].start_ns by {
            assert(rv.log[i].closed());
        }
        assert forall|i: int, j: int|
            0 <= i < j < after.log.len() && (#[trigger] after.log[i]).parent == (
            #[trigger] after.log[j]).parent implies after.log[i].closed()
            && after.log[i].end_ns->0 <= after.log[j].start_ns by {
            assert(rv.log[i].parent == rv.log[j].parent);
        }
    }
    assert(nested(after.log)) by {
        assert forall|j: int, k: int|
            0 <= k <= j < after.log.len() && (#[trigger] after.log[j]).parent is Some
                && after.log[j].parent->0 < k implies (#[trigger] after.log[k]).parent is Some
            && after.log[k].parent->0 >= after.log[j].parent->0 by {
            assert(rv.log[j].parent is Some);
            assert(rv.log[k].parent is Some);
        }
    }
    assert(after.chained()) by {
        assert forall|m: int| 0 <= m < after.open.len() implies (
        #[trigger] after.log[after.open[m] as int]).parent == after.outside(m) by {
            assert(rv.log[rv.open[m] as int].parent == rv.outside(m));
        }
        assert forall|m: int| 0 <= m < after.open.len() implies #[trigger] level(
            after.log,
            after.open[m] as int,
        ) == m by {
            assert(level(rv.log, rv.open[m] as int) == m);
        }
    }
    assert(after.settled()) by {
        assert forall|i: int| 0 <= i < after.log.len() implies ((#[trigger] after.log[i]).closed()
            <==> !after.open.contains(i as u32)) by {
            assert(rv.log[i].closed() <==> !rv.open.contains(i as u32));
        }
    }
    assert(after.enclosed()) by {
        assert forall|m: int, k: int|
            0 <= m < after.open.len() && (#[trigger] after.open[m]) < k < after.log.len() implies (
        #[trigger] after.log[k]).parent is Some && after.log[k].parent->0 >= after.open[m] by {
            assert(rv.log[k].parent is Some);
        }
    }
    assert(after.past()) by {
        assert forall|i: int| 0 <= i < after.log.len() implies {
            &&& (#[trigger] after.log[i]).start_ns <= after.latest
            &&& (after.log[i].end_ns matches Some(e) ==> e <= after.latest)
        } by {
            assert(rv.log[i].start_ns <= rv.latest);
        }
    }
}

/// A recording.
pub struct Recording {
    all: Vec<Event>,
    id_stack: Vec<u32>,
    latest: u64,
}

impl View for Recording {
    type V = RecordingView;

    closed spec fn view(&self) -> RecordingView {
        RecordingView { log: event_views(self.all@), open: self.id_stack@, latest: self.latest }
    }
}

impl Recording {
    /// What holds of every recording.
    pub open spec fn wf(&self) -> bool {
        self@.wf()
    }

    /// A recording in which nothing has happened yet.
    pub fn new() -> (r: Recording)
        ensures
            r.wf(),
            r@ == RecordingView::empty(),
    {
        let r = Recording { all: Vec::new(), id_stack: Vec::new(), latest: 0 };
        assert(r@.log =~= Seq::<EventView>::empty());
        r
    }

    /// The latest time that the recording has seen.
    pub fn latest(&self) -> (r: u64)
        ensures
            r == self@.latest,
    {
        self.latest
    }

    /// Whether one more event can be opened.
    pub fn has_room(&self) -> (r: bool)
        ensures
            r == self@.has_room(),
    {
        self.all.len() < 0xffff_ffff && self.id_stack.len() <= 0xffff
    }

    /// How many events have been opened, closed or not.
    pub fn event_count(&self) -> (r: usize)
        ensures
            r == self@.log.len(),
    {
        self.all.len()
    }

    /// How many events are open.
    pub fn open_count(&self) -> (r: usize)
        ensures
            r == self@.open.len(),
    {
        self.id_stack.len()
    }

    /// Opens an event called `name` at the time `now`, inside the innermost
    /// open event if there is one.
    pub fn start_at(&mut self, name: &str, now: u64)
        requires
            old(self).wf(),
            old(self)@.has_room(),
            old(self)@.latest <= now,
        ensures
            final(self).wf(),
            final(self)@ == old(self)@.start(name@, now),
    {
        let id = self.all.len() as u32;
        let parent = if self.id_stack.len() > 0 {
            Some(self.id_stack[self.id_stack.len() - 1])
        } else {
            None
        };
        let event = Event {
            id,
            parent,
            name: name.to_owned(),
            collapse: false,
            start_ns: now,
            end_ns: None,
            delta: None,
            notes: Vec::new(),
        };
        assert(event@ == EventView::opened(id, old(self)@.innermost(), name@, now)) by {
            assert(event@.notes =~= Seq::<NoteView>::empty());
        }
        self.all.push(event);
        self.id_stack.push(id);
        self.latest = now;
        proof {
            assert(self@.log =~= old(self)@.start(name@, now).log);
            lemma_start_wf(old(self)@, name@, now);
        }
    }

    /// Closes the innermost open event at the time `now`, if it is called
    /// `name`, and returns how long it was open. Otherwise nothing changes.
    pub fn end_at(&mut self, name: &str, now: u64, collapse: bool) -> (r: Result<u64, Error>)
        requires
            old(self).wf(),
            old(self)@.latest <= now,
        ensures
            final(self).wf(),
            old(self)@.can_end(name@) ==> {
                &&& final(self)@ == old(self)@.end(now, collapse)
                &&& r == Ok::<u64, Error>((now - old(self)@.innermost_start()) as u64)
            },
            !old(self)@.can_end(name@) ==> {
                &&& final(self)@ == old(self)@
                &&& r == Err::<u64, Error>(Error::ProtocolViolation)
            },
    {
        let depth = self.id_stack.len();
        if depth == 0 {
            return Err(Error::ProtocolViolation);
        }
        let id = self.id_stack[depth - 1] as usize;
        let wanted = name.to_owned();
        if self.all[id].name != wanted {
            return Err(Error::ProtocolViolation);
        }
        assert(old(self)@.log[id as int].start_ns <= old(self)@.latest);
        let delta = now - self.all[id].start_ns;
        self.id_stack.pop();
        self.all[id].end_ns = Some(now);
        self.all[id].collapse = collapse;
        self.all[id].delta = Some(delta);
        self.latest = now;
        proof {
            assert(self@.log =~= old(self)@.end(now, collapse).log);
            lemma_end_wf(old(self)@, now, collapse);
        }
        Ok(delta)
    }

    /// Attaches a note made at the time `now` to the innermost open event. If
    /// no event is open, nothing changes.
    pub fn note_at(&mut self, name: &str, description: Option<&str>, now: u64) -> (r: Result<
        (),
        Error,
    >)
        requires
            old(self).wf(),
            old(self)@.latest <= now,
        ensures
            final(self).wf(),
            old(self)@.open.len() > 0 ==> {
                &&& final(self)@ == old(self)@.note(note_of(name@, description, now))
                &&& r is Ok
            },
            old(self)@.open.len() == 0 ==> {
                &&& final(self)@ == old(self)@
                &&& r == Err::<(), Error>(Error::ProtocolViolation)
            },
    {
        let depth = self.id_stack.len();
        if depth == 0 {
            return Err(Error::ProtocolViolation);
        }
        let id = self.id_stack[depth - 1] as usize;
        let note = Note {
            name: name.to_owned(),
            description: match description {
                Some(d) => Some(d.to_owned()),
                None => None,
            },
            instant: now,
        };
        assert(note@ == note_of(name@, description, now));
        proof {
            lemma_note_views_push(self.all@[id as int].notes@, note);
        }
        self.all[id].notes.push(note);
        self.latest = now;
        proof {
            assert(self@.log =~= old(self)@.note(note_of(name@, description, now)).log);
            lemma_note_wf(old(self)@, note_of(name@, description, now));
        }
        Ok(())
    }

    /// The trees of the recording: one for each closed event that was opened
    /// while none was open.
    pub fn spans(&self) -> (r: Vec<Span>)
        requires
            self.wf(),
        ensures
            span_views(r@) == self@.spans(),
    {
        convert_events_to_span(&self.all)
    }
}

/// The note that is made of a name and a description at the time `now`.
pub open spec fn note_of(name: Seq<char>, description: Option<&str>, now: u64) -> NoteView {
    NoteView {
        name,
        description: match description {
            Some(d) => Some(d@),
            None => None,
        },
        instant: now,
    }
}

} // verus!
