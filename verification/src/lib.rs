//! Nested, named timespans: recording them on a per-thread context and
//! rebuilding them into trees.
//!
//! A `Context` records the spans of one thread; `start` and `end` open and
//! close them, and `spans` turns what was recorded into trees. A `Recording`
//! is the same state machine without a clock: its operations take the time as
//! an argument. A `Registry` gathers what several threads have recorded.

pub mod bounds;
pub mod clock;
pub mod context;
pub mod event;
pub mod guard;
pub mod laws;
pub mod order;
pub mod recording;
pub mod registry;
pub mod span;
pub mod tree;

pub use context::{
    clear, end, end_collapse, end_with, frames, next_frame, note, spans, start, Context,
};
pub use guard::{span_of, start_guard, SpanGuard};
pub use recording::{Error, Recording};
pub use registry::{
    clear_all, commit_as, commit_current_thread, threads, threads_as, Registry, Thread,
};
pub use span::{Frame, Note, Span};
