//! What holds of the trees that are built from a log: of any log, and of the
//! logs that a recording makes as spans are opened and closed.

use vstd::prelude::*;
use crate::event::{EventView, indexed};
use crate::order::{
    barrier, extent, lemma_node_closes_off, lemma_open_root_reaches_end, lemma_prefix_roots,
};
use crate::recording::{RecordingView, lemma_end_wf, lemma_note_wf, lemma_start_wf, nested};
use crate::span::{NoteView, SpanView};
use crate::tree::{
    absorb, absorb_opt, build, children_from, lemma_children_extent, lemma_node_extent, merge,
    merges, node_at, roots_from,
};

verus! {

/// A tree whose root lies at `depth` and in which every child lies one deeper
/// than its parent.
pub open spec fn leveled(s: SpanView, depth: int) -> bool
    decreases s,
{
    &&& s.depth == depth
    &&& forall|i: int| 0 <= i < s.children.len() ==> leveled(#[trigger] s.children[i], depth + 1)
}

/// Every tree of the sequence is leveled at `depth`.
pub open spec fn all_leveled(spans: Seq<SpanView>, depth: int) -> bool {
    forall|i: int| 0 <= i < spans.len() ==> leveled(#[trigger] spans[i], depth)
}

/// Siblings stay leveled when one more arrives behind them, merged or not.
proof fn lemma_absorb_leveled(kids: Seq<SpanView>, child: Option<SpanView>, depth: int)
    requires
        all_leveled(kids, depth),
        child matches Some(c) ==> leveled(c, depth),
    ensures
        all_leveled(absorb_opt(kids, child), depth),
{
    if let Some(c) = child {
        let after = absorb(kids, c);
        if merges(kids, c) {
            let last = kids.last();
            assert(leveled(last, depth));
            assert(merge(last, c).children == last.children);
            assert(leveled(merge(last, c), depth));
            assert forall|i: int| 0 <= i < after.len() implies leveled(#[trigger] after[i], depth) by {
                if i < kids.len() - 1 {
                    assert(after[i] == kids[i]);
                }
            }
        } else {
            assert forall|i: int| 0 <= i < after.len() implies leveled(#[trigger] after[i], depth) by {
                if i < kids.len() {
                    assert(after[i] == kids[i]);
                }
            }
        }
    }
}

/// The subtree of an event is leveled at the depth it is placed at.
proof fn lemma_node_leveled(log: Seq<EventView>, i: int, depth: int)
    requires
        0 <= i < log.len(),
    ensures
        node_at(log, i, depth).0 matches Some(s) ==> leveled(s, depth),
    decreases log.len() - i, 0int,
{
    lemma_children_leveled(log, log[i].id, i + 1, depth + 1, Seq::empty());
}

/// The children read behind an event are leveled one below it.
proof fn lemma_children_leveled(
    log: Seq<EventView>,
    parent: u32,
    i: int,
    depth: int,
    found: Seq<SpanView>,
)
    requires
        0 <= i <= log.len(),
        all_leveled(found, depth),
    ensures
        all_leveled(children_from(log, parent, i, depth, found).0, depth),
    decreases log.len() - i, 1int,
{
    if i < log.len() && log[i].parent == Some(parent) {
        let (child, next) = node_at(log, i, depth);
        if i < next <= log.len() {
            lemma_node_leveled(log, i, depth);
            lemma_absorb_leveled(found, child, depth);
            lemma_children_leveled(log, parent, next, depth, absorb_opt(found, child));
        }
    }
}

/// The roots read from a log are leveled at 0.
proof fn lemma_roots_leveled(log: Seq<EventView>, i: int, found: Seq<SpanView>)
    requires
        0 <= i <= log.len(),
        all_leveled(found, 0),
    ensures
        all_leveled(roots_from(log, i, found), 0),
    decreases log.len() - i,
{
    if i < log.len() {
        let (root, next) = node_at(log, i, 0);
        if i < next <= log.len() {
            lemma_node_leveled(log, i, 0);
            let grown = match root {
                Some(r) => found.push(r),
                None => found,
            };
            assert forall|k: int| 0 <= k < grown.len() implies leveled(#[trigger] grown[k], 0) by {
                if k < found.len() {
                    assert(grown[k] == found[k]);
                }
            }
            lemma_roots_leveled(log, next, grown);
        }
    }
}

/// In the trees of any log, a span's depth is its nesting level: every root
/// lies at depth 0 and every child one deeper than its parent.
pub proof fn lemma_depth_is_nesting_level(log: Seq<EventView>)
    ensures
        all_leveled(build(log), 0),
{
    lemma_roots_leveled(log, 0, Seq::empty());
}

/// An event gives a node of its own exactly if it was closed; an event that was
/// opened and never closed gives none, wherever it stands.
pub proof fn lemma_node_iff_closed(log: Seq<EventView>, i: int, depth: int)
    requires
        0 <= i < log.len(),
    ensures
        node_at(log, i, depth).0 is Some <==> log[i].closed(),
        node_at(log, i, depth).0 matches Some(s) ==> {
            &&& s.name == log[i].name
            &&& s.start_ns == log[i].start_ns
            &&& s.end_ns == log[i].end_ns->0
            &&& s.delta == log[i].delta->0
            &&& s.notes == log[i].notes
            &&& s.collapsable == log[i].collapse
        },
{
}

/// A leaf that was closed as collapsible and arrives right behind a sibling of
/// its name and depth makes no node of its own: the sibling takes its end, and
/// the sibling's duration grows by that of the leaf. The siblings before stay
/// as they are.
pub proof fn lemma_collapse_merges(kids: Seq<SpanView>, child: SpanView)
    requires
        kids.len() > 0,
        child.collapsable,
        child.children.len() == 0,
        kids.last().name == child.name,
        kids.last().depth == child.depth,
    ensures
        absorb(kids, child).len() == kids.len(),
        absorb(kids, child).last().delta == kids.last().delta + child.delta,
        absorb(kids, child).last().end_ns == child.end_ns,
        absorb(kids, child).last().start_ns == kids.last().start_ns,
        absorb(kids, child).last().name == kids.last().name,
        absorb(kids, child).last().children == kids.last().children,
        absorb(kids, child).drop_last() == kids.drop_last(),
{
    assert(absorb(kids, child).drop_last() =~= kids.drop_last());
}

/// The same, said of the event that the leaf is read from: an event that was
/// closed as collapsible, has no child behind it, and follows a sibling whose
/// span has its name, is merged into that span.
pub proof fn lemma_collapsible_leaf_merges(
    log: Seq<EventView>,
    parent: u32,
    i: int,
    depth: int,
    found: Seq<SpanView>,
)
    requires
        0 <= i < log.len(),
        log[i].parent == Some(parent),
        log[i].closed(),
        log[i].collapse,
        i + 1 < log.len() ==> log[i + 1].parent != Some(log[i].id),
        found.len() > 0,
        found.last().name == log[i].name,
        found.last().depth == depth,
    ensures
        children_from(log, parent, i, depth, found) == children_from(
            log,
            parent,
            i + 1,
            depth,
            found.drop_last().push(
                SpanView {
                    end_ns: log[i].end_ns->0,
                    delta: found.last().delta + log[i].delta->0,
                    ..found.last()
                },
            ),
        ),
{
    let (child, next) = node_at(log, i, depth);
    assert(children_from(log, log[i].id, i + 1, depth + 1, Seq::empty()) == (
        Seq::<SpanView>::empty(),
        i + 1,
    ));
    assert(merges(found, child->0));
}

/// A span that is no leaf, one that was not closed as collapsible, and one
/// whose name or depth differs from that of the sibling right before it, is
/// never merged: it becomes a node of its own behind its siblings.
pub proof fn lemma_no_collapse(kids: Seq<SpanView>, child: SpanView)
    requires
        kids.len() == 0 || !child.collapsable || child.children.len() > 0 || kids.last().name
            != child.name || kids.last().depth != child.depth,
    ensures
        absorb(kids, child) == kids.push(child),
{
}

/// While an event is open, the trees of a recording are those of its log as it
/// stood before the outermost open event was opened: that event and all that
/// was opened since give no span, and the trees before them are not touched.
pub proof fn lemma_open_root_hides(rv: RecordingView)
    requires
        rv.wf(),
        rv.open.len() > 0,
    ensures
        rv.spans() == build(rv.log.take(rv.open[0] as int)),
{
    let r = rv.open[0] as int;
    let head = build(rv.log.take(r));
    lemma_open_root_reaches_end(rv);
    lemma_prefix_roots(rv.log, r, 0, Seq::empty());
    assert(rv.open.contains(rv.open[0]));
    assert(!rv.log[r].closed());
    assert(roots_from(rv.log, rv.log.len() as int, head) == head);
}

/// Opening a span changes no tree.
pub proof fn lemma_start_keeps_trees(rv: RecordingView, name: Seq<char>, now: u64)
    requires
        rv.wf(),
        rv.has_room(),
        rv.latest <= now,
    ensures
        rv.start(name, now).spans() == rv.spans(),
{
    let after = rv.start(name, now);
    lemma_start_wf(rv, name, now);
    lemma_open_root_hides(after);
    if rv.open.len() > 0 {
        lemma_open_root_hides(rv);
        assert(after.open[0] == rv.open[0]);
        assert(after.log.take(rv.open[0] as int) =~= rv.log.take(rv.open[0] as int));
    } else {
        assert(after.log.take(rv.log.len() as int) =~= rv.log);
    }
}

/// A note changes no tree as long as the span it is attached to is open.
pub proof fn lemma_note_keeps_trees(rv: RecordingView, note: NoteView)
    requires
        rv.wf(),
        rv.open.len() > 0,
        rv.latest <= note.instant,
    ensures
        rv.note(note).spans() == rv.spans(),
{
    let after = rv.note(note);
    lemma_note_wf(rv, note);
    lemma_open_root_hides(rv);
    lemma_open_root_hides(after);
    assert(rv.open[0] <= rv.open.last());
    assert(after.log.take(rv.open[0] as int) =~= rv.log.take(rv.open[0] as int));
}

/// Closing a span that lies inside an open one changes no tree.
pub proof fn lemma_inner_end_keeps_trees(rv: RecordingView, now: u64, collapse: bool)
    requires
        rv.wf(),
        rv.open.len() > 1,
        rv.latest <= now,
    ensures
        rv.end(now, collapse).spans() == rv.spans(),
{
    let after = rv.end(now, collapse);
    lemma_end_wf(rv, now, collapse);
    lemma_open_root_hides(rv);
    lemma_open_root_hides(after);
    assert(after.open[0] == rv.open[0]);
    assert(rv.open[0] < rv.open[rv.open.len() - 1]);
    assert(after.log.take(rv.open[0] as int) =~= rv.log.take(rv.open[0] as int));
}

/// Closing the outermost open span adds one tree behind those that were
/// there, and changes none of them. Its root carries the name and the times of
/// the span, and lies at depth 0.
pub proof fn lemma_root_end_adds_tree(rv: RecordingView, now: u64, collapse: bool)
    requires
        rv.wf(),
        rv.open.len() == 1,
        rv.latest <= now,
    ensures
        ({
            let before = rv.spans();
            let after = rv.end(now, collapse).spans();
            let opened = rv.log[rv.open[0] as int];
            &&& after.len() == before.len() + 1
            &&& after.drop_last() == before
            &&& after.last().name == opened.name
            &&& after.last().start_ns == opened.start_ns
            &&& after.last().end_ns == now
            &&& after.last().delta == now - opened.start_ns
            &&& after.last().notes == opened.notes
            &&& after.last().collapsable == collapse
            &&& leveled(after.last(), 0)
        }),
{
    let r = rv.open[0] as int;
    let done = rv.end(now, collapse);
    let head = rv.spans();
    lemma_end_wf(rv, now, collapse);
    lemma_open_root_hides(rv);
    assert(rv.log[r].start_ns <= rv.latest);
    assert(done.log[r].parent is None);
    assert(barrier(done.log, r));
    assert(done.log.take(r) =~= rv.log.take(r));
    lemma_prefix_roots(done.log, r, 0, Seq::empty());
    lemma_node_closes_off(done.log, r);
    let e = extent(done.log, r);
    if e < done.log.len() {
        assert(rv.open[0] < e);
        assert(rv.log[e].parent is Some && rv.log[e].parent->0 >= r);
        assert(done.log[e].parent == rv.log[e].parent);
    }
    lemma_node_leveled(done.log, r, 0);
    let root = node_at(done.log, r, 0).0->0;
    assert(roots_from(done.log, done.log.len() as int, head.push(root)) == head.push(root));
    assert(head.push(root).drop_last() =~= head);
}

/// The spans of the closed events without a parent from position `i` on, in the
/// order of the log, behind those found so far.
pub open spec fn top_level_from(log: Seq<EventView>, i: int, found: Seq<SpanView>) -> Seq<SpanView>
    decreases log.len() - i,
{
    if 0 <= i < log.len() {
        top_level_from(
            log,
            i + 1,
            if log[i].parent is None && log[i].closed() {
                found.push(node_at(log, i, 0).0->0)
            } else {
                found
            },
        )
    } else {
        found
    }
}

/// Events that have a parent add nothing to the top level.
proof fn lemma_top_level_skips(log: Seq<EventView>, i: int, e: int, found: Seq<SpanView>)
    requires
        0 <= i <= e <= log.len(),
        forall|k: int| i <= k < e ==> (#[trigger] log[k]).parent is Some,
    ensures
        top_level_from(log, i, found) == top_level_from(log, e, found),
    decreases e - i,
{
    if i < e {
        lemma_top_level_skips(log, i + 1, e, found);
    }
}

/// From an event without a parent on, the roots that are read are the spans
/// of the closed events without a parent.
proof fn lemma_roots_are_top_level(log: Seq<EventView>, i: int, found: Seq<SpanView>)
    requires
        indexed(log),
        nested(log),
        barrier(log, i),
    ensures
        roots_from(log, i, found) == top_level_from(log, i, found),
    decreases log.len() - i,
{
    if i < log.len() {
        lemma_node_closes_off(log, i);
        let (root, e) = node_at(log, i, 0);
        let grown = match root {
            Some(r) => found.push(r),
            None => found,
        };
        if e < log.len() && log[e].parent is Some {
            let q = log[e].parent->0 as int;
            assert(q < i);
            assert(log[i].parent is Some);
        }
        assert(barrier(log, e));
        lemma_roots_are_top_level(log, e, grown);
        assert forall|k: int| i + 1 <= k < e implies (#[trigger] log[k]).parent is Some by {
            assert(extent(log, k) <= e);
        }
        lemma_top_level_skips(log, i + 1, e, grown);
    }
}

/// In a log in which every event is identified by its position and stands
/// inside its parent, there is one tree for each closed event without a
/// parent, in the order of the log, and it is the subtree of that event.
pub proof fn lemma_one_root_per_top_level_event(log: Seq<EventView>)
    requires
        indexed(log),
        nested(log),
    ensures
        build(log) == top_level_from(log, 0, Seq::empty()),
{
    if log.len() > 0 {
        assert(log[0].parent matches Some(p) ==> p < 0);
    }
    lemma_roots_are_top_level(log, 0, Seq::empty());
}

/// Every recording that was made by opening and closing spans has one tree
/// for each closed event that was opened while none was open, in the order in
/// which they were opened, with its root at depth 0.
pub proof fn lemma_one_root_per_top_level_start(rv: RecordingView)
    requires
        rv.wf(),
    ensures
        rv.spans() == top_level_from(rv.log, 0, Seq::empty()),
        all_leveled(rv.spans(), 0),
{
    lemma_one_root_per_top_level_event(rv.log);
    lemma_depth_is_nesting_level(rv.log);
}

/// The names of the spans of a tree, the root first and then each child's tree
/// in turn.
pub open spec fn preorder(s: SpanView) -> Seq<Seq<char>>
    decreases s,
{
    seq![s.name] + preorder_of(s.children)
}

/// The names of the spans of some trees, tree after tree.
pub open spec fn preorder_of(spans: Seq<SpanView>) -> Seq<Seq<char>>
    decreases spans,
{
    if spans.len() == 0 {
        Seq::empty()
    } else {
        preorder_of(spans.drop_last()) + preorder(spans.last())
    }
}

/// The names of the events of a log, in its order.
pub open spec fn names(log: Seq<EventView>) -> Seq<Seq<char>> {
    Seq::new(log.len(), |i: int| log[i].name)
}

/// Every event of the log was closed, and none as collapsible.
pub open spec fn plain(log: Seq<EventView>) -> bool {
    forall|i: int| 0 <= i < log.len() ==> (#[trigger] log[i]).closed() && !log[i].collapse
}

/// The names of some trees and one more tree behind them.
proof fn lemma_preorder_push(spans: Seq<SpanView>, s: SpanView)
    ensures
        preorder_of(spans.push(s)) == preorder_of(spans) + preorder(s),
{
    assert(spans.push(s).drop_last() =~= spans);
}

/// In a plain log, the subtree of an event names the events it was read from,
/// in their order.
proof fn lemma_node_preorder(log: Seq<EventView>, i: int, depth: int)
    requires
        plain(log),
        0 <= i < log.len(),
    ensures
        node_at(log, i, depth).0 is Some,
        !node_at(log, i, depth).0->0.collapsable,
        preorder(node_at(log, i, depth).0->0) == names(log).subrange(i, node_at(log, i, depth).1),
    decreases log.len() - i, 0int,
{
    lemma_node_extent(log, i, depth);
    lemma_children_preorder(log, log[i].id, i + 1, depth + 1, Seq::empty());
    let (kids, next) = children_from(log, log[i].id, i + 1, depth + 1, Seq::empty());
    let s = node_at(log, i, depth).0->0;
    assert(preorder_of(Seq::<SpanView>::empty()) == Seq::<Seq<char>>::empty());
    assert(preorder(s) == seq![s.name] + preorder_of(kids));
    assert(seq![log[i].name] + names(log).subrange(i + 1, next) =~= names(log).subrange(i, next));
    assert(Seq::<Seq<char>>::empty() + names(log).subrange(i + 1, next) =~= names(log).subrange(
        i + 1,
        next,
    ));
}

/// In a plain log, the children read behind an event name the events they
/// were read from, in their order.
proof fn lemma_children_preorder(
    log: Seq<EventView>,
    parent: u32,
    i: int,
    depth: int,
    found: Seq<SpanView>,
)
    requires
        plain(log),
        0 <= i <= log.len(),
    ensures
        ({
            let (kids, next) = children_from(log, parent, i, depth, found);
            &&& i <= next <= log.len()
            &&& preorder_of(kids) == preorder_of(found) + names(log).subrange(i, next)
        }),
    decreases log.len() - i, 1int,
{
    lemma_children_extent(log, parent, i, depth, found);
    if i < log.len() && log[i].parent == Some(parent) {
        lemma_node_extent(log, i, depth);
        lemma_node_preorder(log, i, depth);
        let (child, next) = node_at(log, i, depth);
        let grown = absorb_opt(found, child);
        assert(grown == found.push(child->0));
        lemma_preorder_push(found, child->0);
        lemma_children_preorder(log, parent, next, depth, grown);
        let last = children_from(log, parent, i, depth, found).1;
        assert((preorder_of(found) + names(log).subrange(i, next)) + names(log).subrange(next, last)
            =~= preorder_of(found) + names(log).subrange(i, last));
    } else {
        assert(preorder_of(found) + names(log).subrange(i, i) =~= preorder_of(found));
    }
}

/// In a plain log, the roots name the events they were read from, in their
/// order.
proof fn lemma_roots_preorder(log: Seq<EventView>, i: int, found: Seq<SpanView>)
    requires
        plain(log),
        0 <= i <= log.len(),
    ensures
        preorder_of(roots_from(log, i, found)) == preorder_of(found) + names(log).subrange(
            i,
            log.len() as int,
        ),
    decreases log.len() - i,
{
    if i < log.len() {
        lemma_node_extent(log, i, 0);
        lemma_node_preorder(log, i, 0);
        let (root, next) = node_at(log, i, 0);
        lemma_preorder_push(found, root->0);
        lemma_roots_preorder(log, next, found.push(root->0));
        assert((preorder_of(found) + names(log).subrange(i, next)) + names(log).subrange(
            next,
            log.len() as int,
        ) =~= preorder_of(found) + names(log).subrange(i, log.len() as int));
    } else {
        assert(preorder_of(found) + names(log).subrange(i, i) =~= preorder_of(found));
    }
}

/// The log can be read back from its trees: where every event was closed, and
/// none as collapsible, the names of the spans, each tree read root first, are
/// the names of the events in the order of the log. No event is lost, none is
/// made up, and none changes its place.
pub proof fn lemma_trees_keep_log_order(log: Seq<EventView>)
    requires
        plain(log),
    ensures
        preorder_of(build(log)) == names(log),
{
    lemma_roots_preorder(log, 0, Seq::empty());
    assert(preorder_of(Seq::<SpanView>::empty()) == Seq::<Seq<char>>::empty());
    assert(Seq::<Seq<char>>::empty() + names(log).subrange(0, log.len() as int) =~= names(log));
}

/// The trees are a function of the log alone: two recordings with the same log
/// have the same trees, whatever else differs, and building twice from one
/// recording gives the same trees.
pub proof fn lemma_rebuild_is_same(first: RecordingView, second: RecordingView)
    requires
        first.log == second.log,
    ensures
        first.spans() == second.spans(),
{
}

} // verus!
