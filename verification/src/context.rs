//! The recording context of one thread: the recording that is under way, the
//! frames that were set aside, and the clock that times them.

use vstd::prelude::*;
use std::time::Instant;
use crate::clock::{instant_now, no_earlier_than, ns_since_epoch};
use crate::recording::{Error, Recording, RecordingView, note_of};
use crate::span::{Frame, Span, SpanView, span_views};

verus! {

/// What a context stands for in contracts.
pub struct ContextView {
    /// The recording that is under way.
    pub current: RecordingView,
    /// The recordings that were set aside as finished frames, oldest first.
    pub past: Seq<RecordingView>,
}

impl ContextView {
    /// What holds of every context: each of its recordings is well formed.
    pub open spec fn wf(self) -> bool {
        &&& self.current.wf()
        &&& forall|i: int| 0 <= i < self.past.len() ==> (#[trigger] self.past[i]).wf()
    }

    /// The context with another recording under way.
    pub open spec fn with_current(self, current: RecordingView) -> ContextView {
        ContextView { current, ..self }
    }

    /// The trees of each frame that was set aside, oldest first.
    pub open spec fn frames(self) -> Seq<Seq<SpanView>> {
        Seq::new(self.past.len(), |i: int| self.past[i].spans())
    }
}

/// The recording context of one thread.
pub struct Context {
    epoch: Instant,
    current: Recording,
    past: Vec<Recording>,
}

/// The values of a sequence of recordings.
pub open spec fn recording_views(recordings: Seq<Recording>) -> Seq<RecordingView> {
    Seq::new(recordings.len(), |i: int| recordings[i]@)
}

impl View for Context {
    type V = ContextView;

    closed spec fn view(&self) -> ContextView {
        ContextView { current: self.current@, past: recording_views(self.past@) }
    }
}

impl Context {
    /// What holds of every context.
    pub open spec fn wf(&self) -> bool {
        self@.wf()
    }

    /// A context in which nothing has happened yet; its clock starts now.
    pub fn new() -> (r: Context)
        ensures
            r.wf(),
            r@.current == RecordingView::empty(),
            r@.past.len() == 0,
    {
        Context { epoch: instant_now(), current: Recording::new(), past: Vec::new() }
    }

    /// The recording that is under way.
    pub fn current(&self) -> (r: &Recording)
        ensures
            r@ == self@.current,
    {
        &self.current
    }

    /// Whether one more span can be opened.
    pub fn has_room(&self) -> (r: bool)
        ensures
            r == self@.current.has_room(),
    {
        self.current.has_room()
    }

    /// The time of the context's clock: the nanoseconds since its epoch, and
    /// never less than the latest time that the recording has seen.
    fn now(&self) -> (r: u64)
        ensures
            self@.current.latest <= r,
    {
        no_earlier_than(self.current.latest(), ns_since_epoch(&self.epoch))
    }
}

/// Opens a span called `name` at the present time, inside the innermost open
/// span if there is one.
pub fn start(ctx: &mut Context, name: &str)
    requires
        old(ctx).wf(),
        old(ctx)@.current.has_room(),
    ensures
        final(ctx).wf(),
        old(ctx)@.current.latest <= final(ctx)@.current.latest,
        final(ctx)@ == old(ctx)@.with_current(
            old(ctx)@.current.start(name@, final(ctx)@.current.latest),
        ),
{
    let now = ctx.now();
    ctx.current.start_at(name, now);
    assert(ctx@.past == old(ctx)@.past);
}

/// Closes the innermost open span at the present time, if it is called
/// `name`, and returns the nanoseconds that it was open. Otherwise nothing
/// changes.
pub fn end(ctx: &mut Context, name: &str) -> (r: Result<u64, Error>)
    requires
        old(ctx).wf(),
    ensures
        final(ctx).wf(),
        old(ctx)@.current.can_end(name@) ==> closes(old(ctx)@, final(ctx)@, false, r),
        !old(ctx)@.current.can_end(name@) ==> refuses(old(ctx)@, final(ctx)@, r),
{
    let now = ctx.now();
    let r = ctx.current.end_at(name, now, false);
    assert(ctx@.past == old(ctx)@.past);
    r
}

/// Closes the innermost open span as `end` does, and marks it as one that may
/// be merged into the sibling right before it when the trees are built.
pub fn end_collapse(ctx: &mut Context, name: &str) -> (r: Result<u64, Error>)
    requires
        old(ctx).wf(),
    ensures
        final(ctx).wf(),
        old(ctx)@.current.can_end(name@) ==> closes(old(ctx)@, final(ctx)@, true, r),
        !old(ctx)@.current.can_end(name@) ==> refuses(old(ctx)@, final(ctx)@, r),
{
    let now = ctx.now();
    let r = ctx.current.end_at(name, now, true);
    assert(ctx@.past == old(ctx)@.past);
    r
}

/// What closing the innermost open span does to a context: the span is closed
/// at a time no earlier than any seen before, which is then the context's
/// latest, and the result is the time from the span's start to then.
pub open spec fn closes(
    before: ContextView,
    after: ContextView,
    collapse: bool,
    r: Result<u64, Error>,
) -> bool {
    let now = after.current.latest;
    &&& before.current.latest <= now
    &&& after == before.with_current(before.current.end(now, collapse))
    &&& r == Ok::<u64, Error>((now - before.current.innermost_start()) as u64)
}

/// What a refused operation does to a context: nothing, and the result is
/// the error.
pub open spec fn refuses<T>(before: ContextView, after: ContextView, r: Result<T, Error>) -> bool {
    after == before && r == Err::<T, Error>(Error::ProtocolViolation)
}

/// Closes the innermost open span as `end` does, and hands `result` back if
/// that succeeded.
pub fn end_with<R>(ctx: &mut Context, name: &str, result: R) -> (r: Result<R, Error>)
    requires
        old(ctx).wf(),
    ensures
        final(ctx).wf(),
        old(ctx)@.current.can_end(name@) ==> {
            &&& r == Ok::<R, Error>(result)
            &&& exists|d: u64| closes(old(ctx)@, final(ctx)@, false, Ok(d))
        },
        !old(ctx)@.current.can_end(name@) ==> refuses(old(ctx)@, final(ctx)@, r),
{
    match end(ctx, name) {
        Ok(d) => {
            assert(closes(old(ctx)@, ctx@, false, Ok(d)));
            Ok(result)
        },
        Err(e) => Err(e),
    }
}

/// Attaches a note, made at the present time, to the innermost open span. If
/// no span is open, nothing changes.
pub fn note(ctx: &mut Context, name: &str, description: Option<&str>) -> (r: Result<(), Error>)
    requires
        old(ctx).wf(),
    ensures
        final(ctx).wf(),
        old(ctx)@.current.open.len() > 0 ==> {
            &&& r is Ok
            &&& old(ctx)@.current.latest <= final(ctx)@.current.latest
            &&& final(ctx)@ == old(ctx)@.with_current(
                old(ctx)@.current.note(note_of(name@, description, final(ctx)@.current.latest)),
            )
        },
        old(ctx)@.current.open.len() == 0 ==> refuses(old(ctx)@, final(ctx)@, r),
{
    let now = ctx.now();
    let r = ctx.current.note_at(name, description, now);
    assert(ctx@.past == old(ctx)@.past);
    r
}

/// Forgets everything that was recorded, and starts the clock anew.
pub fn clear(ctx: &mut Context)
    ensures
        final(ctx).wf(),
        final(ctx)@.current == RecordingView::empty(),
        final(ctx)@.past.len() == 0,
{
    ctx.current = Recording::new();
    ctx.past = Vec::new();
    ctx.epoch = instant_now();
}

/// The trees of the recording that is under way.
pub fn spans(ctx: &Context) -> (r: Vec<Span>)
    requires
        ctx.wf(),
    ensures
        span_views(r@) == ctx@.current.spans(),
{
    ctx.current.spans()
}

/// Sets the recording that is under way aside as a finished frame and begins an
/// empty one. The clock runs on.
pub fn next_frame(ctx: &mut Context)
    requires
        old(ctx).wf(),
    ensures
        final(ctx).wf(),
        final(ctx)@.current == RecordingView::empty(),
        final(ctx)@.past == old(ctx)@.past.push(old(ctx)@.current),
{
    let done = take_current(ctx);
    ctx.past.push(done);
    assert(ctx@.past =~= old(ctx)@.past.push(old(ctx)@.current));
}

/// Takes the recording that is under way out of the context and leaves an
/// empty one in its place.
pub(crate) fn take_current(ctx: &mut Context) -> (r: Recording)
    requires
        old(ctx).wf(),
    ensures
        final(ctx).wf(),
        r.wf(),
        r@ == old(ctx)@.current,
        final(ctx)@ == old(ctx)@.with_current(RecordingView::empty()),
{
    let mut done = Recording::new();
    std::mem::swap(&mut ctx.current, &mut done);
    assert(ctx@.past == old(ctx)@.past);
    done
}

/// The trees of each frame that was set aside, oldest first.
pub fn frames(ctx: &Context) -> (r: Vec<Frame>)
    requires
        ctx.wf(),
    ensures
        r.len() == ctx@.past.len(),
        forall|i: int| 0 <= i < r.len() ==> (#[trigger] r@[i])@ == ctx@.frames()[i],
{
    let mut out: Vec<Frame> = Vec::new();
    let mut i: usize = 0;
    while i < ctx.past.len()
        invariant
            ctx.wf(),
            i <= ctx.past.len(),
            out.len() == i,
            forall|k: int| 0 <= k < i ==> (#[trigger] out@[k])@ == ctx.past@[k]@.spans(),
        decreases ctx.past.len() - i,
    {
        assert(ctx@.past[i as int].wf());
        let roots = ctx.past[i].spans();
        out.push(Frame { roots });
        i = i + 1;
    }
    out
}

} // verus!
