//! The bounds of a set of frames: the earliest and the latest time and the
//! greatest depth, as a drawing of the frames needs them.

use vstd::prelude::*;
use crate::span::{Frame, Span, SpanView, span_views};

verus! {

/// The larger of two numbers.
pub open spec fn larger(a: int, b: int) -> int {
    if a < b {
        b
    } else {
        a
    }
}

/// The greatest depth at which a span of the tree lies.
pub open spec fn deepest(s: SpanView) -> int
    decreases s,
{
    larger(s.depth, deepest_of(s.children))
}

/// The greatest depth at which a span of the trees lies; 0 where there is
/// none.
pub open spec fn deepest_of(spans: Seq<SpanView>) -> int
    decreases spans,
{
    if spans.len() == 0 {
        0
    } else {
        larger(deepest_of(spans.drop_last()), deepest(spans.last()))
    }
}

/// The greatest depth at which a span of the frames lies; 0 where there is
/// none.
pub open spec fn deepest_in(frames: Seq<Frame>) -> int
    decreases frames.len(),
{
    if frames.len() == 0 {
        0
    } else {
        larger(deepest_in(frames.drop_last()), deepest_of(frames.last()@))
    }
}

/// What a drawing of some frames needs to know of them as a whole.
pub struct DumpContext {
    /// When the first root of the first frame was opened.
    pub min_timestamp: u64,
    /// When the last root of the last frame was closed.
    pub max_timestamp: u64,
    /// The greatest depth at which a span lies.
    pub max_depth: u16,
    /// The number that the next span drawn is given.
    pub id: u32,
}

impl DumpContext {
    /// The bounds of the frames: none where there is no frame, or where the
    /// first or the last frame has no root.
    pub fn new(frames: &[Frame]) -> (r: Option<DumpContext>)
        ensures
            r is None <==> frames@.len() == 0 || frames@[0].roots@.len() == 0
                || frames@.last().roots@.len() == 0,
            r matches Some(c) ==> {
                &&& c.min_timestamp == frames@[0].roots@[0].start_ns
                &&& c.max_timestamp == frames@.last().roots@.last().end_ns
                &&& c.max_depth == deepest_in(frames@)
                &&& c.id == 0
            },
    {
        let n = frames.len();
        if n == 0 || frames[0].roots.len() == 0 {
            return None;
        }
        let min_timestamp = frames[0].roots[0].start_ns;
        let last = &frames[n - 1];
        if last.roots.len() == 0 {
            return None;
        }
        let max_timestamp = last.roots[last.roots.len() - 1].end_ns;
        let mut max_depth: u16 = 0;
        let mut i: usize = 0;
        assert(frames@.take(0) =~= Seq::<Frame>::empty());
        while i < n
            invariant
                n == frames@.len(),
                i <= n,
                max_depth == deepest_in(frames@.take(i as int)),
            decreases n - i,
        {
            let roots = &frames[i].roots;
            let mut k: usize = 0;
            let ghost before = max_depth;
            assert(roots@.take(0) =~= Seq::<Span>::empty());
            assert(span_views(roots@.take(0)) =~= Seq::<SpanView>::empty());
            while k < roots.len()
                invariant
                    k <= roots.len(),
                    max_depth == larger(before as int, deepest_of(span_views(roots@.take(k as int)))),
                decreases roots.len() - k,
            {
                proof {
                    let grown = roots@.take(k + 1);
                    assert(grown.drop_last() =~= roots@.take(k as int));
                    assert(grown.last() == roots@[k as int]);
                    assert(span_views(grown) == span_views(grown.drop_last()).push(grown.last()@));
                    assert(span_views(grown).drop_last() =~= span_views(roots@.take(k as int)));
                }
                DumpContext::get_depth(&roots[k], &mut max_depth);
                k = k + 1;
            }
            proof {
                assert(roots@.take(roots@.len() as int) =~= roots@);
                let grown = frames@.take(i + 1);
                assert(grown.drop_last() =~= frames@.take(i as int));
                assert(grown.last() == frames@[i as int]);
            }
            i = i + 1;
        }
        assert(frames@.take(n as int) =~= frames@);
        Some(DumpContext { min_timestamp, max_timestamp, max_depth, id: 0 })
    }

    /// Raises `cur_max` to the greatest depth at which a span of the tree
    /// lies, if that is more.
    pub fn get_depth(span: &Span, cur_max: &mut u16)
        ensures
            *final(cur_max) == larger(*old(cur_max) as int, deepest(span@)),
        decreases span,
    {
        if span.depth > *cur_max {
            *cur_max = span.depth;
        }
        let ghost kids = span.children@;
        let mut k: usize = 0;
        assert(kids.take(0) =~= Seq::<Span>::empty());
        assert(span_views(kids.take(0)) =~= Seq::<SpanView>::empty());
        assert(span@.children == span_views(kids));
        while k < span.children.len()
            invariant
                kids == span.children@,
                k <= kids.len(),
                *cur_max == larger(
                    larger(*old(cur_max) as int, span.depth as int),
                    deepest_of(span_views(kids.take(k as int))),
                ),
            decreases kids.len() - k,
        {
            proof {
                let grown = kids.take(k + 1);
                assert(grown.drop_last() =~= kids.take(k as int));
                assert(grown.last() == kids[k as int]);
                assert(span_views(grown) == span_views(grown.drop_last()).push(grown.last()@));
                assert(span_views(grown).drop_last() =~= span_views(kids.take(k as int)));
            }
            DumpContext::get_depth(&span.children[k], cur_max);
            k = k + 1;
        }
        assert(kids.take(kids.len() as int) =~= kids);
    }
}

} // verus!
