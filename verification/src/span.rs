//! The finished data that a recording yields: notes, spans and frames, each
//! with the mathematical value that contracts speak of.

use vstd::prelude::*;

verus! {

/// What a `Note` stands for in contracts.
pub struct NoteView {
    pub name: Seq<char>,
    pub description: Option<Seq<char>>,
    pub instant: u64,
}

/// What a `Span` stands for in contracts: a finite tree.
pub struct SpanView {
    pub name: Seq<char>,
    pub start_ns: u64,
    pub end_ns: u64,
    pub delta: int,
    pub depth: int,
    pub children: Seq<SpanView>,
    pub notes: Seq<NoteView>,
    pub collapsable: bool,
}

/// A remark made at one instant inside a span.
#[derive(Debug)]
pub struct Note {
    /// A short name for what happened.
    pub name: String,
    /// A longer description.
    pub description: Option<String>,
    /// When the note was made.
    pub instant: u64,
}

impl View for Note {
    type V = NoteView;

    open spec fn view(&self) -> NoteView {
        NoteView {
            name: self.name@,
            description: match self.description {
                Some(d) => Some(d@),
                None => None,
            },
            instant: self.instant,
        }
    }
}

/// A named timespan with the spans that lay inside it.
#[derive(Debug)]
pub struct Span {
    /// The name of the span.
    pub name: String,
    /// When the span was opened.
    pub start_ns: u64,
    /// When the span was closed.
    pub end_ns: u64,
    /// The time spent in the span.
    pub delta: u64,
    /// How deep the span lies in its tree; a root lies at 0.
    pub depth: u16,
    /// The spans that were opened and closed inside this one, in opening order.
    pub children: Vec<Span>,
    /// The notes made while this span was the innermost open one.
    pub notes: Vec<Note>,
    /// Whether the span was closed as one that may be merged into its predecessor.
    pub collapsable: bool,
}

/// The values of a sequence of notes.
pub open spec fn note_views(notes: Seq<Note>) -> Seq<NoteView> {
    Seq::new(notes.len(), |i: int| notes[i]@)
}

/// The trees of one recording, as they stood when it was set aside.
#[derive(Debug)]
pub struct Frame {
    /// The roots, in the order in which they were opened.
    pub roots: Vec<Span>,
}

impl View for Span {
    type V = SpanView;

    open spec fn view(&self) -> SpanView
        decreases self,
    {
        SpanView {
            name: self.name@,
            start_ns: self.start_ns,
            end_ns: self.end_ns,
            delta: self.delta as int,
            depth: self.depth as int,
            children: span_views(self.children@),
            notes: note_views(self.notes@),
            collapsable: self.collapsable,
        }
    }
}

impl Clone for Note {
    fn clone(&self) -> (r: Note)
        ensures
            r@ == self@,
    {
        Note {
            name: self.name.clone(),
            description: match &self.description {
                Some(d) => Some(d.clone()),
                None => None,
            },
            instant: self.instant,
        }
    }
}

/// A copy of a list of notes.
pub fn clone_notes(notes: &Vec<Note>) -> (r: Vec<Note>)
    ensures
        note_views(r@) == note_views(notes@),
{
    let mut r: Vec<Note> = Vec::new();
    let mut i: usize = 0;
    while i < notes.len()
        invariant
            i <= notes.len(),
            r.len() == i,
            forall|k: int| 0 <= k < i ==> r@[k]@ == notes@[k]@,
        decreases notes.len() - i,
    {
        r.push(notes[i].clone());
        i = i + 1;
    }
    assert(note_views(r@) =~= note_views(notes@));
    r
}

/// A copy of a list of spans.
pub fn clone_spans(spans: &Vec<Span>) -> (r: Vec<Span>)
    ensures
        span_views(r@) == span_views(spans@),
    decreases spans,
{
    let mut r: Vec<Span> = Vec::new();
    let mut k: usize = 0;
    assert(spans@.take(0) =~= Seq::<Span>::empty());
    while k < spans.len()
        invariant
            k <= spans.len(),
            span_views(r@) == span_views(spans@.take(k as int)),
        decreases spans.len() - k,
    {
        let copy = spans[k].clone();
        proof {
            lemma_span_views_push(r@, copy);
            lemma_span_views_push(spans@.take(k as int), spans@[k as int]);
            assert(spans@.take(k as int).push(spans@[k as int]) =~= spans@.take(k + 1));
        }
        r.push(copy);
        k = k + 1;
    }
    assert(spans@.take(spans@.len() as int) =~= spans@);
    r
}

impl Clone for Span {
    fn clone(&self) -> (r: Span)
        ensures
            r@ == self@,
        decreases self,
    {
        Span {
            name: self.name.clone(),
            start_ns: self.start_ns,
            end_ns: self.end_ns,
            delta: self.delta,
            depth: self.depth,
            children: clone_spans(&self.children),
            notes: clone_notes(&self.notes),
            collapsable: self.collapsable,
        }
    }
}

impl View for Frame {
    type V = Seq<SpanView>;

    open spec fn view(&self) -> Seq<SpanView> {
        span_views(self.roots@)
    }
}

impl Clone for Frame {
    fn clone(&self) -> (r: Frame)
        ensures
            r@ == self@,
    {
        Frame { roots: clone_spans(&self.roots) }
    }
}

/// The values of a list of notes that has grown by one.
pub proof fn lemma_note_views_push(notes: Seq<Note>, n: Note)
    ensures
        note_views(notes.push(n)) == note_views(notes).push(n@),
{
    assert(note_views(notes.push(n)) =~= note_views(notes).push(n@));
}

/// The values of a sequence of spans, one for one.
pub open spec fn span_views(spans: Seq<Span>) -> Seq<SpanView>
    decreases spans,
{
    if spans.len() == 0 {
        Seq::empty()
    } else {
        span_views(spans.drop_last()).push(spans.last()@)
    }
}

/// `span_views` keeps the length and takes each span to its value.
pub proof fn lemma_span_views(spans: Seq<Span>)
    ensures
        span_views(spans).len() == spans.len(),
        forall|i: int| 0 <= i < spans.len() ==> (#[trigger] span_views(spans)[i]) == spans[i]@,
    decreases spans.len(),
{
    if spans.len() > 0 {
        lemma_span_views(spans.drop_last());
        assert(span_views(spans) == span_views(spans.drop_last()).push(spans.last()@));
    } else {
        assert(span_views(spans) == Seq::<SpanView>::empty());
    }
}

/// The values of a list of spans that has grown by one.
pub proof fn lemma_span_views_push(spans: Seq<Span>, s: Span)
    ensures
        span_views(spans.push(s)) == span_views(spans).push(s@),
{
    assert(spans.push(s).drop_last() =~= spans);
}

} // verus!
