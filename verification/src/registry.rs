//! What the threads of a process have recorded, gathered in one place.

use vstd::prelude::*;
use crate::context::{Context, clear, take_current};
use crate::recording::{Recording, RecordingView};
use crate::span::{Span, SpanView, clone_spans, span_views};

verus! {

/// What a committed recording stands for in contracts.
pub struct CommittedView {
    /// The number that identified the thread when it committed.
    pub id: usize,
    /// The name that the thread had when it committed.
    pub name: Option<Seq<char>>,
    /// What the thread had recorded.
    pub recording: RecordingView,
}

/// What was recorded on one thread.
#[derive(Debug)]
pub struct Thread {
    /// The number that identifies the thread.
    pub id: usize,
    /// The thread's name, if it has one.
    pub name: Option<String>,
    /// The roots of the thread's trees, in the order in which they were opened.
    pub spans: Vec<Span>,
}

/// What a `Thread` stands for in contracts.
pub struct ThreadView {
    pub id: usize,
    pub name: Option<Seq<char>>,
    pub spans: Seq<SpanView>,
}

impl View for Thread {
    type V = ThreadView;

    open spec fn view(&self) -> ThreadView {
        ThreadView { id: self.id, name: name_view(self.name), spans: span_views(self.spans@) }
    }
}

impl Clone for Thread {
    fn clone(&self) -> (r: Thread)
        ensures
            r@ == self@,
    {
        Thread { id: self.id, name: clone_name(&self.name), spans: clone_spans(&self.spans) }
    }
}

/// The value of a name that may be missing.
pub open spec fn name_view(name: Option<String>) -> Option<Seq<char>> {
    match name {
        Some(n) => Some(n@),
        None => None,
    }
}

/// What `threads` tells of a committed recording.
pub open spec fn thread_of(c: CommittedView) -> ThreadView {
    ThreadView { id: c.id, name: c.name, spans: c.recording.spans() }
}

/// The recording that a thread has committed, with the thread's identity at
/// that moment.
struct Committed {
    id: usize,
    name: Option<String>,
    recording: Recording,
}

impl Committed {
    spec fn view(&self) -> CommittedView {
        CommittedView { id: self.id, name: name_view(self.name), recording: self.recording@ }
    }
}

/// The recordings that threads have committed, in the order in which they did.
pub struct Registry {
    committed: Vec<Committed>,
}

impl View for Registry {
    type V = Seq<CommittedView>;

    closed spec fn view(&self) -> Seq<CommittedView> {
        Seq::new(self.committed@.len(), |i: int| self.committed@[i]@)
    }
}

impl Registry {
    /// What holds of every registry: each committed recording is well formed.
    pub open spec fn wf(&self) -> bool {
        forall|i: int| 0 <= i < self@.len() ==> (#[trigger] self@[i]).recording.wf()
    }

    /// A registry to which nothing has been committed.
    pub fn new() -> (r: Registry)
        ensures
            r.wf(),
            r@.len() == 0,
    {
        Registry { committed: Vec::new() }
    }

    /// How many recordings have been committed.
    pub fn len(&self) -> (r: usize)
        ensures
            r == self@.len(),
    {
        self.committed.len()
    }
}

/// `thread_id::get`: a number that is the same on every call from one thread
/// and differs between threads that are alive together. Nothing is claimed
/// of it.
#[verifier::external_body]
fn current_thread_id() -> usize {
    thread_id::get()
}

/// A copy of a name that may be missing.
fn clone_name(name: &Option<String>) -> (r: Option<String>)
    ensures
        name_view(r) == name_view(*name),
{
    match name {
        Some(n) => Some(n.clone()),
        None => None,
    }
}

/// Moves what the context has recorded into the registry, under the thread
/// identity given, and leaves the context with an empty recording.
pub fn commit_as(registry: &mut Registry, ctx: &mut Context, id: usize, name: Option<String>)
    requires
        old(registry).wf(),
        old(ctx).wf(),
    ensures
        final(registry).wf(),
        final(ctx).wf(),
        final(ctx)@ == old(ctx)@.with_current(RecordingView::empty()),
        final(registry)@ == old(registry)@.push(
            CommittedView { id, name: name_view(name), recording: old(ctx)@.current },
        ),
{
    let recording = take_current(ctx);
    registry.committed.push(Committed { id, name, recording });
    assert(registry@ =~= old(registry)@.push(
        CommittedView { id, name: name_view(name), recording: old(ctx)@.current },
    ));
}

/// Moves what the calling thread's context has recorded into the registry,
/// under the number that identifies the thread now and the name given, and
/// leaves the context with an empty recording.
pub fn commit_current_thread(registry: &mut Registry, ctx: &mut Context, name: Option<String>)
    requires
        old(registry).wf(),
        old(ctx).wf(),
    ensures
        final(registry).wf(),
        final(ctx).wf(),
        final(ctx)@ == old(ctx)@.with_current(RecordingView::empty()),
        final(registry)@ == old(registry)@.push(
            CommittedView {
                id: final(registry)@.last().id,
                name: name_view(name),
                recording: old(ctx)@.current,
            },
        ),
{
    let id = current_thread_id();
    commit_as(registry, ctx, id, name);
}

/// The trees of every thread: first those of the context, under the thread
/// identity given, then those of each committed recording, in the order in
/// which they were committed.
pub fn threads_as(registry: &Registry, ctx: &Context, id: usize, name: Option<String>) -> (r: Vec<
    Thread,
>)
    requires
        registry.wf(),
        ctx.wf(),
    ensures
        r.len() == registry@.len() + 1,
        r@[0]@ == (ThreadView { id, name: name_view(name), spans: ctx@.current.spans() }),
        forall|i: int| 0 <= i < registry@.len() ==> (#[trigger] r@[i + 1])@ == thread_of(registry@[i]),
{
    let mut out: Vec<Thread> = Vec::new();
    out.push(Thread { id, name, spans: crate::context::spans(ctx) });
    let mut i: usize = 0;
    while i < registry.committed.len()
        invariant
            registry.wf(),
            i <= registry.committed.len(),
            out.len() == i + 1,
            out@[0]@ == (ThreadView { id, name: name_view(name), spans: ctx@.current.spans() }),
            forall|k: int| 0 <= k < i ==> (#[trigger] out@[k + 1])@ == thread_of(registry@[k]),
        decreases registry.committed.len() - i,
    {
        let c = &registry.committed[i];
        assert(registry@[i as int] == c@);
        let t = Thread { id: c.id, name: clone_name(&c.name), spans: c.recording.spans() };
        assert(t@ == thread_of(registry@[i as int]));
        out.push(t);
        i = i + 1;
    }
    out
}

/// The trees of every thread: first those of the calling thread's context,
/// under the number that identifies the thread now and the name given, then
/// those of each committed recording, in the order in which they were
/// committed.
pub fn threads(registry: &Registry, ctx: &Context, name: Option<String>) -> (r: Vec<Thread>)
    requires
        registry.wf(),
        ctx.wf(),
    ensures
        r.len() == registry@.len() + 1,
        r@[0]@ == (ThreadView { id: r@[0].id, name: name_view(name), spans: ctx@.current.spans() }),
        forall|i: int| 0 <= i < registry@.len() ==> (#[trigger] r@[i + 1])@ == thread_of(registry@[i]),
{
    let id = current_thread_id();
    threads_as(registry, ctx, id, name)
}

/// Forgets everything that was committed and everything that the context has
/// recorded.
pub fn clear_all(registry: &mut Registry, ctx: &mut Context)
    ensures
        final(registry).wf(),
        final(registry)@.len() == 0,
        final(ctx).wf(),
        final(ctx)@.current == RecordingView::empty(),
        final(ctx)@.past.len() == 0,
{
    registry.committed = Vec::new();
    clear(ctx);
}

} // verus!
