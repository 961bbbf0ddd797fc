//! How the subtrees of a log lie in it: where the subtree of an event ends,
//! what a log's beginning decides, and what an open event hides.

use vstd::prelude::*;
use crate::event::{EventView, indexed};
use crate::recording::{RecordingView, nested};
use crate::span::SpanView;
use crate::tree::{
    absorb_opt, children_from, lemma_children_extent, lemma_node_extent, node_at, roots_from,
};

verus! {

/// The position of the first event behind the subtree of the event at `i`.
pub open spec fn extent(log: Seq<EventView>, i: int) -> int {
    node_at(log, i, 0).1
}

/// Where a subtree ends does not depend on the depth it is placed at.
pub proof fn lemma_node_extent_any_depth(log: Seq<EventView>, i: int, depth: int)
    requires
        0 <= i < log.len(),
    ensures
        node_at(log, i, depth).1 == extent(log, i),
    decreases log.len() - i, 0int,
{
    lemma_children_extent_any_depth(
        log,
        log[i].id,
        i + 1,
        depth + 1,
        Seq::empty(),
        1,
        Seq::empty(),
    );
}

/// Where the children of an event end depends neither on the depth they are
/// placed at nor on the siblings found before.
pub proof fn lemma_children_extent_any_depth(
    log: Seq<EventView>,
    parent: u32,
    i: int,
    d1: int,
    f1: Seq<SpanView>,
    d2: int,
    f2: Seq<SpanView>,
)
    requires
        0 <= i <= log.len(),
    ensures
        children_from(log, parent, i, d1, f1).1 == children_from(log, parent, i, d2, f2).1,
    decreases log.len() - i, 1int,
{
    if i < log.len() && log[i].parent == Some(parent) {
        lemma_node_extent_any_depth(log, i, d1);
        lemma_node_extent_any_depth(log, i, d2);
        lemma_node_extent(log, i, d1);
        let (c1, next) = node_at(log, i, d1);
        let (c2, _) = node_at(log, i, d2);
        lemma_children_extent_any_depth(
            log,
            parent,
            next,
            d1,
            absorb_opt(f1, c1),
            d2,
            absorb_opt(f2, c2),
        );
    }
}

/// The event at `j`, if there is one, has no parent: no subtree that starts
/// before `j` reaches beyond it.
pub open spec fn barrier(log: Seq<EventView>, j: int) -> bool {
    0 <= j <= log.len() && (j < log.len() ==> log[j].parent is None)
}

/// Before an event without a parent, a subtree is what it is in the log that
/// ends there.
pub proof fn lemma_prefix_node(log: Seq<EventView>, j: int, i: int, depth: int)
    requires
        barrier(log, j),
        0 <= i < j,
    ensures
        node_at(log, i, depth) == node_at(log.take(j), i, depth),
    decreases log.len() - i, 0int,
{
    lemma_prefix_children(log, j, log[i].id, i + 1, depth + 1, Seq::empty());
}

/// Before an event without a parent, the children of an event are what they are
/// in the log that ends there.
pub proof fn lemma_prefix_children(
    log: Seq<EventView>,
    j: int,
    parent: u32,
    i: int,
    depth: int,
    found: Seq<SpanView>,
)
    requires
        barrier(log, j),
        0 <= i <= j,
    ensures
        children_from(log, parent, i, depth, found) == children_from(
            log.take(j),
            parent,
            i,
            depth,
            found,
        ),
    decreases log.len() - i, 1int,
{
    let head = log.take(j);
    if i < j && log[i].parent == Some(parent) {
        lemma_prefix_node(log, j, i, depth);
        lemma_node_extent(head, i, depth);
        let (child, next) = node_at(log, i, depth);
        lemma_prefix_children(log, j, parent, next, depth, absorb_opt(found, child));
    }
}

/// The roots of a log are those of its beginning up to an event without a
/// parent, followed by those read from that event on.
pub proof fn lemma_prefix_roots(log: Seq<EventView>, j: int, i: int, found: Seq<SpanView>)
    requires
        barrier(log, j),
        0 <= i <= j,
    ensures
        roots_from(log, i, found) == roots_from(log, j, roots_from(log.take(j), i, found)),
    decreases log.len() - i,
{
    let head = log.take(j);
    if i < j {
        lemma_prefix_node(log, j, i, 0);
        lemma_node_extent(head, i, 0);
        let (root, next) = node_at(log, i, 0);
        lemma_prefix_roots(
            log,
            j,
            next,
            match root {
                Some(r) => found.push(r),
                None => found,
            },
        );
    }
}

/// The subtree of the event at `k` ends at the end of the log or before an
/// event that does not lie inside `k`.
pub open spec fn closes_off(log: Seq<EventView>, k: int) -> bool {
    let e = extent(log, k);
    e == log.len() || log[e].parent is None || log[e].parent->0 < k
}

/// The events between `p` and `i` all lie inside `p`, and their subtrees end
/// at `i` or before, each before an event that does not lie inside it.
pub open spec fn inside(log: Seq<EventView>, p: int, i: int) -> bool {
    forall|k: int|
        p < k < i ==> {
            &&& closes_off(log, k)
            &&& #[trigger] extent(log, k) <= i
            &&& log[k].parent is Some
            &&& log[k].parent->0 >= p
        }
}

/// In a log that is indexed and nested, the subtree of an event holds only
/// events that lie inside it, and ends where they end.
pub proof fn lemma_node_closes_off(log: Seq<EventView>, i: int)
    requires
        indexed(log),
        nested(log),
        0 <= i < log.len(),
    ensures
        inside(log, i, extent(log, i)),
        closes_off(log, i),
        i < extent(log, i) <= log.len(),
    decreases log.len() - i, 0int,
{
    lemma_node_extent(log, i, 0);
    lemma_children_close_off(log, i, i + 1, 1, Seq::empty());
}

/// In a log that is indexed and nested, reading the children of `p` stops at
/// the first event that does not lie inside `p`.
pub proof fn lemma_children_close_off(
    log: Seq<EventView>,
    p: int,
    i: int,
    depth: int,
    found: Seq<SpanView>,
)
    requires
        indexed(log),
        nested(log),
        0 <= p < i <= log.len(),
        inside(log, p, i),
    ensures
        ({
            let j = children_from(log, p as u32, i, depth, found).1;
            &&& i <= j <= log.len()
            &&& inside(log, p, j)
            &&& (j == log.len() || log[j].parent is None || log[j].parent->0 < p)
        }),
    decreases log.len() - i, 1int,
{
    lemma_children_extent(log, p as u32, i, depth, found);
    if i < log.len() {
        if log[i].parent == Some(p as u32) {
            lemma_node_closes_off(log, i);
            lemma_node_extent_any_depth(log, i, depth);
            let (child, next) = node_at(log, i, depth);
            assert(next == extent(log, i));
            assert forall|k: int| p < k < next implies {
                &&& closes_off(log, k)
                &&& #[trigger] extent(log, k) <= next
                &&& log[k].parent is Some
                &&& log[k].parent->0 >= p
            } by {
                if k < i {
                    assert(extent(log, k) <= i);
                } else if k > i {
                    assert(extent(log, k) <= next);
                }
            }
            lemma_children_close_off(log, p, next, depth, absorb_opt(found, child));
        } else if log[i].parent is Some && log[i].parent->0 >= p {
            let q = log[i].parent->0 as int;
            assert(log[i].parent matches Some(x) ==> x < i);
            assert(p < q < i);
            lemma_node_extent(log, q, 0);
            let e = extent(log, q);
            assert(e <= i);
            assert(closes_off(log, q));
            assert(log[e].parent is Some && log[e].parent->0 >= q);
        }
    }
}

/// In a well-formed recording, everything from the outermost open event on
/// belongs to its subtree.
pub proof fn lemma_open_root_reaches_end(rv: RecordingView)
    requires
        rv.wf(),
        rv.open.len() > 0,
    ensures
        barrier(rv.log, rv.open[0] as int),
        extent(rv.log, rv.open[0] as int) == rv.log.len(),
{
    let r = rv.open[0] as int;
    assert(rv.log[rv.open[0] as int].parent is None);
    lemma_node_closes_off(rv.log, r);
    let e = extent(rv.log, r);
    if e < rv.log.len() {
        assert(rv.open[0] < e);
        assert(rv.log[e].parent is Some && rv.log[e].parent->0 >= r);
    }
}

} // verus!
