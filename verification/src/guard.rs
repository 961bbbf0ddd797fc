//! Spans that are closed by the one who holds their guard, and spans around a
//! call.

use vstd::prelude::*;
use crate::context::{Context, closes, end, end_collapse, refuses, start};
use crate::recording::Error;

verus! {

/// The handle of a span that was opened by `start_guard`: it keeps the span's
/// name, so that the span is closed under the name it was opened with.
pub struct SpanGuard {
    name: String,
}

impl SpanGuard {
    /// The name of the span that the guard closes.
    pub closed spec fn name(&self) -> Seq<char> {
        self.name@
    }

    /// Closes the guard's span, as `end` does with the guard's name.
    pub fn end(self, ctx: &mut Context) -> (r: Result<u64, Error>)
        requires
            old(ctx).wf(),
        ensures
            final(ctx).wf(),
            old(ctx)@.current.can_end(self.name()) ==> closes(old(ctx)@, final(ctx)@, false, r),
            !old(ctx)@.current.can_end(self.name()) ==> refuses(old(ctx)@, final(ctx)@, r),
    {
        end(ctx, self.name.as_str())
    }

    /// Closes the guard's span, as `end_collapse` does with the guard's name.
    pub fn end_collapse(self, ctx: &mut Context) -> (r: Result<u64, Error>)
        requires
            old(ctx).wf(),
        ensures
            final(ctx).wf(),
            old(ctx)@.current.can_end(self.name()) ==> closes(old(ctx)@, final(ctx)@, true, r),
            !old(ctx)@.current.can_end(self.name()) ==> refuses(old(ctx)@, final(ctx)@, r),
    {
        end_collapse(ctx, self.name.as_str())
    }
}

/// Opens a span as `start` does and returns the guard that closes it.
pub fn start_guard(ctx: &mut Context, name: &str) -> (guard: SpanGuard)
    requires
        old(ctx).wf(),
        old(ctx)@.current.has_room(),
    ensures
        final(ctx).wf(),
        guard.name() == name@,
        old(ctx)@.current.latest <= final(ctx)@.current.latest,
        final(ctx)@ == old(ctx)@.with_current(
            old(ctx)@.current.start(name@, final(ctx)@.current.latest),
        ),
        final(ctx)@.current.can_end(guard.name()),
{
    start(ctx, name);
    SpanGuard { name: name.to_owned() }
}

/// Opens a span called `name`, calls `f`, closes the span and returns what `f`
/// returned. The span lies in the log as one that was opened and closed with
/// nothing in between.
pub fn span_of<R, F: FnOnce() -> R>(ctx: &mut Context, name: &str, f: F) -> (r: R)
    requires
        old(ctx).wf(),
        old(ctx)@.current.has_room(),
        f.requires(()),
    ensures
        final(ctx).wf(),
        f.ensures((), r),
        exists|opened: u64, closed: u64|
            old(ctx)@.current.latest <= opened <= closed && final(ctx)@ == old(ctx)@.with_current(
                #[trigger] old(ctx)@.current.start(name@, opened).end(closed, false),
            ),
{
    start(ctx, name);
    let ghost opened = ctx@.current.latest;
    let ghost during = ctx@;
    let r = f();
    let ended = end(ctx, name);
    proof {
        let closed = ctx@.current.latest;
        assert(during.current.can_end(name@));
        assert(ctx@ == old(ctx)@.with_current(
            old(ctx)@.current.start(name@, opened).end(closed, false),
        ));
    }
    r
}

} // verus!
