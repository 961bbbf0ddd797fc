//! Rebuilding trees of spans from a flat log of events.
//!
//! A log lists its events in the order in which they were opened, so the events
//! of one subtree stand together, right behind the event at its root. The tree
//! is found by reading the log once from front to back: behind an event, every
//! event that names it as its parent starts a child.

use vstd::prelude::*;
use crate::event::{Event, EventView, buildable, event_views, level};
use crate::span::{
    Span, SpanView, clone_notes, lemma_span_views, lemma_span_views_push, span_views,
};

verus! {

/// `prev` after the leaf `child` has been merged into it: it ends where the leaf
/// ends, and the leaf's duration is added to its own.
pub open spec fn merge(prev: SpanView, child: SpanView) -> SpanView {
    SpanView { end_ns: child.end_ns, delta: prev.delta + child.delta, ..prev }
}

/// Whether `child`, arriving behind the siblings `kids`, is merged into the last
/// of them: it is a leaf that was closed as collapsible, and the sibling right
/// before it has its name and its depth.
pub open spec fn merges(kids: Seq<SpanView>, child: SpanView) -> bool {
    &&& kids.len() > 0
    &&& child.collapsable
    &&& child.children.len() == 0
    &&& kids.last().name == child.name
    &&& kids.last().depth == child.depth
}

/// The siblings `kids` after `child` has arrived behind them.
pub open spec fn absorb(kids: Seq<SpanView>, child: SpanView) -> Seq<SpanView> {
    if merges(kids, child) {
        kids.drop_last().push(merge(kids.last(), child))
    } else {
        kids.push(child)
    }
}

/// The siblings `kids` after an event has been read that may have given a span.
pub open spec fn absorb_opt(kids: Seq<SpanView>, child: Option<SpanView>) -> Seq<SpanView> {
    match child {
        Some(c) => absorb(kids, c),
        None => kids,
    }
}

/// The span of one event at `depth` with the given children; none for an event
/// that was never closed.
pub open spec fn finished(e: EventView, depth: int, children: Seq<SpanView>) -> Option<SpanView> {
    if e.closed() {
        Some(
            SpanView {
                name: e.name,
                start_ns: e.start_ns,
                end_ns: e.end_ns->0,
                delta: e.delta->0 as int,
                depth,
                children,
                notes: e.notes,
                collapsable: e.collapse,
            },
        )
    } else {
        None
    }
}

/// The subtree that starts with the event at `i`, placed at `depth`, and the
/// position of the first event behind it. The events of the subtree are read
/// whether or not the event at `i` was closed; if it was not, they are dropped
/// with it.
pub open spec fn node_at(log: Seq<EventView>, i: int, depth: int) -> (Option<SpanView>, int)
    decreases log.len() - i, 0int,
{
    if 0 <= i < log.len() {
        let (kids, next) = children_from(log, log[i].id, i + 1, depth + 1, Seq::empty());
        (finished(log[i], depth, kids), next)
    } else {
        (None, i)
    }
}

/// The children of the event `parent`, read from position `i` on and added to
/// those found so far, and the position of the first event that is no child.
///
/// The test on `next` is there for the termination check alone: it always
/// holds (`lemma_node_extent`).
pub open spec fn children_from(
    log: Seq<EventView>,
    parent: u32,
    i: int,
    depth: int,
    found: Seq<SpanView>,
) -> (Seq<SpanView>, int)
    decreases log.len() - i, 1int,
{
    if 0 <= i < log.len() && log[i].parent == Some(parent) {
        let (child, next) = node_at(log, i, depth);
        if i < next <= log.len() {
            children_from(log, parent, next, depth, absorb_opt(found, child))
        } else {
            (found, i)
        }
    } else {
        (found, i)
    }
}

/// The roots read from position `i` on, added to those found so far. Roots are
/// never merged.
pub open spec fn roots_from(log: Seq<EventView>, i: int, found: Seq<SpanView>) -> Seq<SpanView>
    decreases log.len() - i,
{
    if 0 <= i < log.len() {
        let (root, next) = node_at(log, i, 0);
        if i < next <= log.len() {
            roots_from(
                log,
                next,
                match root {
                    Some(r) => found.push(r),
                    None => found,
                },
            )
        } else {
            found
        }
    } else {
        found
    }
}

/// The trees of a log.
pub open spec fn build(log: Seq<EventView>) -> Seq<SpanView> {
    roots_from(log, 0, Seq::empty())
}

/// A subtree holds its own root and ends inside the log.
pub proof fn lemma_node_extent(log: Seq<EventView>, i: int, depth: int)
    requires
        0 <= i < log.len(),
    ensures
        i < node_at(log, i, depth).1 <= log.len(),
    decreases log.len() - i, 0int,
{
    lemma_children_extent(log, log[i].id, i + 1, depth + 1, Seq::empty());
}

/// Reading children moves forward only and ends inside the log.
pub proof fn lemma_children_extent(
    log: Seq<EventView>,
    parent: u32,
    i: int,
    depth: int,
    found: Seq<SpanView>,
)
    requires
        0 <= i <= log.len(),
    ensures
        i <= children_from(log, parent, i, depth, found).1 <= log.len(),
    decreases log.len() - i, 1int,
{
    if i < log.len() && log[i].parent == Some(parent) {
        lemma_node_extent(log, i, depth);
        let (child, next) = node_at(log, i, depth);
        lemma_children_extent(log, parent, next, depth, absorb_opt(found, child));
    }
}

/// A span holds a duration that fits between its start and its end.
pub open spec fn bounded(s: SpanView) -> bool {
    s.start_ns <= s.end_ns && 0 <= s.delta <= s.end_ns - s.start_ns
}

/// Builds the subtree that starts with the event at `i`, and returns it with the
/// position of the first event behind it.
pub(crate) fn event_to_span(log: &Vec<Event>, i: usize, depth: u16) -> (r: (Option<Span>, usize))
    requires
        buildable(event_views(log@)),
        i < log.len(),
        depth <= level(event_views(log@), i as int),
    ensures
        r.1 as int == node_at(event_views(log@), i as int, depth as int).1,
        match r.0 {
            Some(s) => node_at(event_views(log@), i as int, depth as int).0 == Some(s@),
            None => node_at(event_views(log@), i as int, depth as int).0 is None,
        },
    decreases log.len() - i,
{
    let ghost lv = event_views(log@);
    let id = log[i].id;
    let mut children: Vec<Span> = Vec::new();
    let mut next: usize = i + 1;
    let ghost mut last: int = i as int;
    assert(span_views(children@) =~= Seq::<SpanView>::empty());
    while next < log.len() && has_parent(&log[next], id)
        invariant
            lv == event_views(log@),
            buildable(lv),
            i < next <= log.len(),
            i < log.len(),
            id == lv[i as int].id,
            depth <= level(lv, i as int),
            children_from(lv, id, i + 1, depth + 1, Seq::empty()) == children_from(
                lv,
                id,
                next as int,
                depth + 1,
                span_views(children@),
            ),
            children.len() > 0 ==> {
                &&& i < last < next
                &&& lv[last].parent == Some(id)
                &&& lv[last].closed()
                &&& children@.last().end_ns == lv[last].end_ns->0
                &&& bounded(children@.last()@)
            },
        decreases log.len() - next,
    {
        proof {
            lemma_node_extent(lv, next as int, depth + 1);
            assert(lv[next as int].parent == Some(id));
            assert(level(lv, next as int) == level(lv, i as int) + 1);
        }
        let ghost before = span_views(children@);
        let (child, after) = event_to_span(log, next, depth + 1);
        match child {
            Some(child) => {
                assert(child@ == finished(lv[next as int], depth + 1, child@.children)->0);
                let n = children.len();
                proof {
                    lemma_span_views(child.children@);
                    lemma_span_views(children@);
                }
                let collapses = n != 0 && child.collapsable && child.children.len() == 0
                    && children[n - 1].name == child.name && children[n - 1].depth == child.depth;
                assert(collapses == merges(before, child@));
                if collapses {
                    let ghost whole = children@;
                    let mut prev = children.pop().unwrap();
                    let ghost was = prev@;
                    assert(lv[last].end_ns->0 <= lv[next as int].start_ns);
                    prev.end_ns = child.end_ns;
                    prev.delta = prev.delta + child.delta;
                    assert(prev@ == merge(was, child@));
                    proof {
                        assert(children@ == whole.drop_last());
                        lemma_span_views_push(children@, prev);
                        assert(span_views(children@) =~= before.drop_last());
                    }
                    children.push(prev);
                } else {
                    proof {
                        lemma_span_views_push(children@, child);
                    }
                    children.push(child);
                }
                assert(span_views(children@) == absorb(before, child@));
                proof {
                    last = next as int;
                }
            },
            None => {},
        }
        next = after;
    }
    let event = &log[i];
    let span = match (event.end_ns, event.delta) {
        (Some(end_ns), Some(delta)) => Some(
            Span {
                name: event.name.clone(),
                start_ns: event.start_ns,
                end_ns,
                delta,
                depth,
                children,
                notes: clone_notes(&event.notes),
                collapsable: event.collapse,
            },
        ),
        _ => None,
    };
    (span, next)
}

/// Builds the trees of a log.
pub(crate) fn convert_events_to_span(log: &Vec<Event>) -> (r: Vec<Span>)
    requires
        buildable(event_views(log@)),
    ensures
        span_views(r@) == build(event_views(log@)),
{
    let ghost lv = event_views(log@);
    let mut roots: Vec<Span> = Vec::new();
    let mut i: usize = 0;
    assert(span_views(roots@) == Seq::<SpanView>::empty());
    while i < log.len()
        invariant
            lv == event_views(log@),
            buildable(lv),
            i <= log.len(),
            build(lv) == roots_from(lv, i as int, span_views(roots@)),
        decreases log.len() - i,
    {
        proof {
            lemma_node_extent(lv, i as int, 0);
        }
        let (root, next) = event_to_span(log, i, 0);
        match root {
            Some(root) => {
                proof {
                    lemma_span_views_push(roots@, root);
                }
                roots.push(root);
            },
            None => {},
        }
        i = next;
    }
    roots
}

/// Whether the event was opened right inside the event `id`.
pub(crate) fn has_parent(event: &Event, id: u32) -> (r: bool)
    ensures
        r == (event@.parent == Some(id)),
{
    match event.parent {
        Some(p) => p == id,
        None => false,
    }
}

} // verus!
