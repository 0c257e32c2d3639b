//! Tree of contents.
//!
//! This module builds a tree structure over the markdown events of one
//! document. The tree mirrors the nesting of the document's headings: each
//! heading owns the content and the deeper headings that follow it, up to
//! the next heading of its own level or shallower. A paragraph holding only
//! the literal marker text `[TOC]` becomes a [`TocElement::TocReference`]
//! placeholder, to be replaced by a rendered outline at layout time.
//!
//! The builder is a single pass over the event stream, driven by a stack of
//! open headings; its exact behaviour is given by the specification state
//! machine ([`build_state_of`]) that the executable builder is proved to
//! follow.

use vstd::prelude::*;

use crate::md::{MdEvent, events_of, heading_disciplined, heading_phase, html_of, render_events};
use crate::utils::{slug_of, slugify};

verus! {

// ---------------------------------------------------------------------------
// The tree
// ---------------------------------------------------------------------------

/// A single element in the TOC: a pre-rendered HTML blob, a reference to
/// insert the full outline, or a nested node.
pub enum TocElement {
    /// Rendered HTML for a run of events that belong to no deeper heading.
    Html(String),
    /// The `[TOC]` placeholder.
    TocReference,
    /// A node in the tree.
    Node(TocNode),
}

/// A heading, with the metadata needed to render the TOC.
pub struct Heading {
    /// The heading level, 1 through 6.
    pub level: u8,
    /// The rendered inline content of the heading.
    pub contents: String,
    /// The fragment identifier (slug) to use for this heading.
    pub slug: String,
}

/// A node in the TOC tree: the heading that introduced it and the elements
/// it owns.
pub struct TocNode {
    /// The heading at this node.
    pub heading: Heading,
    /// The TOC contents for this node.
    pub contents: Vec<TocElement>,
}

// ---------------------------------------------------------------------------
// The mathematical model of the tree
// ---------------------------------------------------------------------------

/// The model of a [`Heading`].
pub struct HeadingView {
    pub level: u8,
    pub contents: Seq<char>,
    pub slug: Seq<char>,
}

/// The model of a [`TocElement`].
pub enum TocElemView {
    Html(Seq<char>),
    TocReference,
    Node(TocNodeView),
}

/// The model of a [`TocNode`].
pub struct TocNodeView {
    pub heading: HeadingView,
    pub contents: Seq<TocElemView>,
}

pub open spec fn heading_view(h: Heading) -> HeadingView {
    HeadingView { level: h.level, contents: h.contents@, slug: h.slug@ }
}

pub open spec fn elem_view(e: TocElement) -> TocElemView
    decreases e,
{
    match e {
        TocElement::Html(s) => TocElemView::Html(s@),
        TocElement::TocReference => TocElemView::TocReference,
        TocElement::Node(n) => TocElemView::Node(node_view(n)),
    }
}

pub open spec fn node_view(n: TocNode) -> TocNodeView
    decreases n,
{
    TocNodeView { heading: heading_view(n.heading), contents: elems_view(n.contents@) }
}

pub open spec fn elems_view(s: Seq<TocElement>) -> Seq<TocElemView>
    decreases s,
{
    if s.len() == 0 {
        Seq::empty()
    } else {
        elems_view(s.drop_last()).push(elem_view(s.last()))
    }
}

proof fn lemma_elems_view_push(s: Seq<TocElement>, e: TocElement)
    ensures
        elems_view(s.push(e)) == elems_view(s).push(elem_view(e)),
{
    assert(s.push(e).drop_last() =~= s);
    assert(s.push(e).last() == e);
}

proof fn lemma_elems_view_len(s: Seq<TocElement>)
    ensures
        elems_view(s).len() == s.len(),
        forall|i: int| 0 <= i < s.len() ==> #[trigger] elems_view(s)[i] == elem_view(s[i]),
    decreases s,
{
    if s.len() > 0 {
        lemma_elems_view_len(s.drop_last());
        assert forall|i: int| 0 <= i < s.len() implies #[trigger] elems_view(s)[i] == elem_view(
            s[i],
        ) by {
            if i < s.len() - 1 {
                assert(s.drop_last()[i] == s[i]);
            }
        }
    }
}

// ---------------------------------------------------------------------------
// Plain text of a run of events
// ---------------------------------------------------------------------------

/// The plain-text contribution of one event: only text, inline code and
/// HTML events contribute.
pub open spec fn plain_payload(e: MdEvent) -> Seq<char> {
    match e {
        MdEvent::Text(t) => t@,
        MdEvent::Code(t) => t@,
        MdEvent::Html(t) => t@,
        _ => Seq::empty(),
    }
}

/// The concatenated plain text of a run of events; used to derive a
/// heading's slug and title text.
pub open spec fn plain_of(evs: Seq<MdEvent>) -> Seq<char>
    decreases evs,
{
    if evs.len() == 0 {
        Seq::<char>::empty()
    } else {
        plain_of(evs.drop_last()) + plain_payload(evs.last())
    }
}

/// The inner text of a run of events.
pub fn events_plain(evs: &Vec<MdEvent>) -> (r: String)
    ensures
        r@ == plain_of(evs@),
{
    let mut out = String::new();
    let mut i: usize = 0;
    while i < evs.len()
        invariant
            i <= evs@.len(),
            out@ == plain_of(evs@.take(i as int)),
        decreases evs@.len() - i,
    {
        proof {
            assert(evs@.take(i + 1).drop_last() =~= evs@.take(i as int));
            assert(evs@.take(i + 1).last() == evs@[i as int]);
        }
        match &evs[i] {
            MdEvent::Text(t) => out.append(t.as_str()),
            MdEvent::Code(t) => out.append(t.as_str()),
            MdEvent::Html(t) => out.append(t.as_str()),
            _ => (),
        }
        i = i + 1;
    }
    proof {
        assert(evs@.take(evs@.len() as int) =~= evs@);
    }
    out
}

// ---------------------------------------------------------------------------
// The builder's specification state machine
// ---------------------------------------------------------------------------

/// An open heading during the build: the heading itself, the elements
/// gathered under it so far, and the level that closes it.
#[verifier::ext_equal]
pub struct FrameView {
    pub floor: u8,
    pub heading: HeadingView,
    pub elems: Seq<TocElemView>,
}

/// The whole state of the builder: finished top-level elements, the stack
/// of open headings (outermost first), the buffer of raw events not yet
/// attached anywhere, and the explicit fragment id of the heading currently
/// being read, if one was given.
#[verifier::ext_equal]
pub struct BuildState {
    pub root: Seq<TocElemView>,
    pub stack: Seq<FrameView>,
    pub buffer: Seq<MdEvent>,
    pub pending: Option<Seq<char>>,
}

/// No heading boundary is ever buffered: the builder consumes them itself.
pub open spec fn buffer_wf(buffer: Seq<MdEvent>) -> bool {
    forall|i: int| 0 <= i < buffer.len() ==> !buffer[i].is_heading_event()
}

pub open spec fn init_state() -> BuildState {
    BuildState { root: Seq::empty(), stack: Seq::empty(), buffer: Seq::empty(), pending: None }
}

/// Appends a finished element to the innermost open heading, or to the top
/// level when no heading is open.
pub open spec fn state_push_elem(st: BuildState, e: TocElemView) -> BuildState {
    if st.stack.len() == 0 {
        BuildState { root: st.root.push(e), stack: st.stack, buffer: st.buffer, pending: st.pending }
    } else {
        let f = st.stack.last();
        let f2 = FrameView { floor: f.floor, heading: f.heading, elems: f.elems.push(e) };
        BuildState {
            root: st.root,
            stack: st.stack.drop_last().push(f2),
            buffer: st.buffer,
            pending: st.pending,
        }
    }
}

/// The HTML of a buffer: empty buffers render to nothing.
pub open spec fn buffer_html(buffer: Seq<MdEvent>) -> Seq<char> {
    if buffer.len() == 0 {
        Seq::empty()
    } else {
        html_of(buffer)
    }
}

/// Flushes the buffer as one rendered block; an empty buffer adds nothing.
pub open spec fn state_flush(st: BuildState) -> BuildState {
    if st.buffer.len() == 0 {
        st
    } else {
        let st2 = BuildState {
            root: st.root,
            stack: st.stack,
            buffer: Seq::empty(),
            pending: st.pending,
        };
        state_push_elem(st2, TocElemView::Html(html_of(st.buffer)))
    }
}

/// Closes every open heading whose level would not contain a heading of
/// level `level`, wrapping each as a node of its parent.
pub open spec fn state_pop(st: BuildState, level: u8) -> BuildState
    decreases st.stack.len(),
{
    if st.stack.len() > 0 && st.stack.last().floor >= level {
        let f = st.stack.last();
        let st2 = BuildState {
            root: st.root,
            stack: st.stack.drop_last(),
            buffer: st.buffer,
            pending: st.pending,
        };
        let st3 = state_push_elem(
            st2,
            TocElemView::Node(TocNodeView { heading: f.heading, contents: f.elems }),
        );
        state_pop(st3, level)
    } else {
        st
    }
}

/// Closing open headings touches neither the buffer nor the pending id.
pub proof fn lemma_state_pop_preserves(st: BuildState, level: u8)
    ensures
        state_pop(st, level).buffer == st.buffer,
        state_pop(st, level).pending == st.pending,
    decreases st.stack.len(),
{
    if st.stack.len() > 0 && st.stack.last().floor >= level {
        let f = st.stack.last();
        let st2 = BuildState {
            root: st.root,
            stack: st.stack.drop_last(),
            buffer: st.buffer,
            pending: st.pending,
        };
        let st3 = state_push_elem(
            st2,
            TocElemView::Node(TocNodeView { heading: f.heading, contents: f.elems }),
        );
        lemma_state_pop_preserves(st3, level);
    }
}

/// True when the buffer ends with the four events of a paragraph holding
/// only the literal marker text: paragraph start, `[`, `TOC`, `]`.
pub open spec fn marker_tail(buffer: Seq<MdEvent>) -> bool {
    &&& buffer.len() >= 4
    &&& buffer[buffer.len() - 4] is ParagraphStart
    &&& buffer[buffer.len() - 3].is_text(seq!['['])
    &&& buffer[buffer.len() - 2].is_text(seq!['T', 'O', 'C'])
    &&& buffer[buffer.len() - 1].is_text(seq![']'])
}

/// One step of the builder.
pub open spec fn state_step(st: BuildState, ev: MdEvent) -> BuildState {
    match ev {
        MdEvent::HeadingStart(level, id) => {
            let st2 = state_pop(state_flush(st), level);
            BuildState {
                root: st2.root,
                stack: st2.stack,
                buffer: st2.buffer,
                pending: match id {
                    Some(s) => Some(s@),
                    None => None,
                },
            }
        },
        MdEvent::HeadingEnd(level) => {
            let heading = HeadingView {
                level,
                contents: buffer_html(st.buffer),
                slug: match st.pending {
                    Some(id) => id,
                    None => slug_of(plain_of(st.buffer)),
                },
            };
            BuildState {
                root: st.root,
                stack: st.stack.push(FrameView { floor: level, heading, elems: Seq::empty() }),
                buffer: Seq::empty(),
                pending: None,
            }
        },
        MdEvent::ParagraphEnd => {
            if marker_tail(st.buffer) {
                let st2 = BuildState {
                    root: st.root,
                    stack: st.stack,
                    buffer: st.buffer.take(st.buffer.len() - 4),
                    pending: st.pending,
                };
                state_push_elem(state_flush(st2), TocElemView::TocReference)
            } else {
                BuildState {
                    root: st.root,
                    stack: st.stack,
                    buffer: st.buffer.push(ev),
                    pending: st.pending,
                }
            }
        },
        _ => BuildState {
            root: st.root,
            stack: st.stack,
            buffer: st.buffer.push(ev),
            pending: st.pending,
        },
    }
}

/// The builder state after consuming a whole event stream.
pub open spec fn build_state_of(evs: Seq<MdEvent>) -> BuildState
    decreases evs,
{
    if evs.len() == 0 {
        init_state()
    } else {
        state_step(build_state_of(evs.drop_last()), evs.last())
    }
}

/// The finished tree for an event stream: flush what is buffered, close
/// every open heading, and take the top-level elements.
pub open spec fn toc_of(evs: Seq<MdEvent>) -> Seq<TocElemView> {
    state_pop(state_flush(build_state_of(evs)), 0).root
}

/// The tree of a document's text, through the markdown parser.
pub open spec fn toc_of_text(text: Seq<char>) -> Seq<TocElemView> {
    toc_of(events_of(text))
}

// ---------------------------------------------------------------------------
// The executable builder
// ---------------------------------------------------------------------------

/// An open heading during the build.
struct Frame {
    floor: u8,
    heading: Heading,
    elems: Vec<TocElement>,
}

/// The single-pass TOC builder; follows [`state_step`] exactly.
struct TocBuilder {
    root: Vec<TocElement>,
    stack: Vec<Frame>,
    buffer: Vec<MdEvent>,
    pending: Option<String>,
}

spec fn frame_view(f: Frame) -> FrameView {
    FrameView { floor: f.floor, heading: heading_view(f.heading), elems: elems_view(f.elems@) }
}

spec fn frames_view(s: Seq<Frame>) -> Seq<FrameView>
    decreases s,
{
    if s.len() == 0 {
        Seq::empty()
    } else {
        frames_view(s.drop_last()).push(frame_view(s.last()))
    }
}

proof fn lemma_frames_view_push(s: Seq<Frame>, f: Frame)
    ensures
        frames_view(s.push(f)) == frames_view(s).push(frame_view(f)),
{
    assert(s.push(f).drop_last() =~= s);
    assert(s.push(f).last() == f);
}

proof fn lemma_frames_view_len(s: Seq<Frame>)
    ensures
        frames_view(s).len() == s.len(),
        s.len() > 0 ==> frames_view(s).last() == frame_view(s.last()),
        s.len() > 0 ==> frames_view(s).drop_last() == frames_view(s.drop_last()),
    decreases s,
{
    if s.len() > 0 {
        lemma_frames_view_len(s.drop_last());
        assert(frames_view(s).drop_last() =~= frames_view(s.drop_last()));
    }
}

impl View for TocBuilder {
    type V = BuildState;

    closed spec fn view(&self) -> BuildState {
        BuildState {
            root: elems_view(self.root@),
            stack: frames_view(self.stack@),
            buffer: self.buffer@,
            pending: match self.pending {
                Some(s) => Some(s@),
                None => None,
            },
        }
    }
}

impl TocBuilder {
    fn new() -> (r: TocBuilder)
        ensures
            r@ == init_state(),
            buffer_wf(r@.buffer),
    {
        let r = TocBuilder { root: Vec::new(), stack: Vec::new(), buffer: Vec::new(), pending: None };
        proof {
            assert(r@.root =~= init_state().root);
            assert(r@.stack =~= init_state().stack);
            assert(r@ == init_state());
        }
        r
    }

    /// Appends a finished element to the innermost open heading.
    fn push_elem(&mut self, e: TocElement)
        ensures
            final(self)@ == state_push_elem(old(self)@, elem_view(e)),
    {
        proof {
            lemma_frames_view_len(self.stack@);
        }
        if self.stack.len() == 0 {
            proof {
                lemma_elems_view_push(self.root@, e);
            }
            self.root.push(e);
        } else {
            let mut f = self.stack.pop().unwrap();
            proof {
                lemma_elems_view_push(f.elems@, e);
            }
            f.elems.push(e);
            self.stack.push(f);
            proof {
                lemma_frames_view_push(old(self).stack@.drop_last(), f);
            }
        }
    }

    /// Flushes the buffer as one rendered HTML block.
    fn flush(&mut self)
        requires
            buffer_wf(old(self)@.buffer),
        ensures
            final(self)@ == state_flush(old(self)@),
            buffer_wf(final(self)@.buffer),
    {
        if self.buffer.len() > 0 {
            let html = render_events(&self.buffer);
            self.buffer.clear();
            self.push_elem(TocElement::Html(html));
        }
    }

    /// Closes every open heading with floor at or above `level`.
    fn pop_frames(&mut self, level: u8)
        ensures
            final(self)@ == state_pop(old(self)@, level),
    {
        proof {
            lemma_frames_view_len(self.stack@);
        }
        while self.stack.len() > 0 && self.stack[self.stack.len() - 1].floor >= level
            invariant
                state_pop(old(self)@, level) == state_pop(self@, level),
                self@.buffer == old(self)@.buffer,
                self@.pending == old(self)@.pending,
            decreases self.stack.len(),
        {
            proof {
                lemma_frames_view_len(self.stack@);
            }
            let f = self.stack.pop().unwrap();
            let node = TocNode { heading: f.heading, contents: f.elems };
            self.push_elem(TocElement::Node(node));
            proof {
                lemma_frames_view_len(self.stack@);
            }
        }
        proof {
            lemma_frames_view_len(self.stack@);
        }
    }

    /// Consumes one event.
    fn step(&mut self, ev: MdEvent)
        requires
            buffer_wf(old(self)@.buffer),
        ensures
            final(self)@ == state_step(old(self)@, ev),
            buffer_wf(final(self)@.buffer),
    {
        match ev {
            MdEvent::HeadingStart(level, id) => {
                self.flush();
                proof {
                    lemma_state_pop_preserves(self@, level);
                }
                self.pop_frames(level);
                self.pending = id;
            },
            MdEvent::HeadingEnd(level) => {
                let plain = events_plain(&self.buffer);
                let slug = match &self.pending {
                    Some(id) => id.clone(),
                    None => slugify(plain.as_str()),
                };
                let contents = if self.buffer.len() > 0 {
                    render_events(&self.buffer)
                } else {
                    String::new()
                };
                self.buffer.clear();
                self.pending = None;
                let heading = Heading { level, contents, slug };
                let f = Frame { floor: level, heading, elems: Vec::new() };
                proof {
                    lemma_frames_view_push(self.stack@, f);
                    assert(frame_view(f).elems =~= Seq::<TocElemView>::empty());
                }
                self.stack.push(f);
            },
            MdEvent::ParagraphEnd => {
                let is_marker = self.buffer.len() >= 4 && {
                    let n = self.buffer.len();
                    matches!(&self.buffer[n - 4], MdEvent::ParagraphStart) && text_is_bracket_open(
                        &self.buffer[n - 3],
                    ) && text_is_toc(&self.buffer[n - 2]) && text_is_bracket_close(
                        &self.buffer[n - 1],
                    )
                };
                if is_marker {
                    let n = self.buffer.len();
                    self.buffer.truncate(n - 4);
                    self.flush();
                    self.push_elem(TocElement::TocReference);
                } else {
                    self.buffer.push(ev);
                }
            },
            _ => {
                self.buffer.push(ev);
            },
        }
    }

    /// Finishes the build: flush what is buffered and close every heading,
    /// handing back the finished top-level elements.
    fn finish(&mut self) -> (r: Vec<TocElement>)
        requires
            buffer_wf(old(self)@.buffer),
        ensures
            elems_view(r@) == state_pop(state_flush(old(self)@), 0).root,
    {
        self.flush();
        self.pop_frames(0);
        let mut r: Vec<TocElement> = Vec::new();
        core::mem::swap(&mut r, &mut self.root);
        r
    }
}

/// True when the event is a text node holding exactly `[`.
fn text_is_bracket_open(e: &MdEvent) -> (r: bool)
    ensures
        r == e.is_text(seq!['[']),
{
    match e {
        MdEvent::Text(t) => str_is_char(t.as_str(), '['),
        _ => false,
    }
}

/// True when the event is a text node holding exactly `]`.
fn text_is_bracket_close(e: &MdEvent) -> (r: bool)
    ensures
        r == e.is_text(seq![']']),
{
    match e {
        MdEvent::Text(t) => str_is_char(t.as_str(), ']'),
        _ => false,
    }
}

/// True when the event is a text node holding exactly `TOC`.
fn text_is_toc(e: &MdEvent) -> (r: bool)
    ensures
        r == e.is_text(seq!['T', 'O', 'C']),
{
    match e {
        MdEvent::Text(t) => {
            let s = t.as_str();
            let n = s.unicode_len();
            if n == 3 {
                let r = s.get_char(0) == 'T' && s.get_char(1) == 'O' && s.get_char(2) == 'C';
                proof {
                    if r {
                        assert(s@ =~= seq!['T', 'O', 'C']);
                    } else if s@ == seq!['T', 'O', 'C'] {
                        assert(s@[0] == 'T' && s@[1] == 'O' && s@[2] == 'C');
                    }
                }
                r
            } else {
                proof {
                    if s@ == seq!['T', 'O', 'C'] {
                        assert(s@.len() == 3);
                    }
                }
                false
            }
        },
        _ => false,
    }
}

/// True when `s` holds exactly the one character `c`.
fn str_is_char(s: &str, c: char) -> (r: bool)
    ensures
        r == (s@ == seq![c]),
{
    let n = s.unicode_len();
    if n == 1 {
        let c0 = s.get_char(0);
        proof {
            if c0 == c {
                assert(s@ =~= seq![c]);
            } else if s@ == seq![c] {
                assert(s@[0] == c);
            }
        }
        c0 == c
    } else {
        proof {
            if s@ == seq![c] {
                assert(s@.len() == 1);
            }
        }
        false
    }
}

// ---------------------------------------------------------------------------
// Laws of the builder
// ---------------------------------------------------------------------------

/// No `[TOC]` marker paragraph ever completes in the stream: at no paragraph
/// end does the text so far close with the three marker tokens.
pub open spec fn marker_free(evs: Seq<MdEvent>) -> bool {
    forall|i: int|
        0 <= i < evs.len() ==> ((#[trigger] evs[i]) is ParagraphEnd ==> !marker_tail(evs.take(i)))
}

/// A stream without heading boundaries or marker paragraphs passes through
/// the builder untouched: everything stays buffered.
proof fn lemma_build_plain(evs: Seq<MdEvent>)
    requires
        buffer_wf(evs),
        marker_free(evs),
    ensures
        build_state_of(evs) == (BuildState {
            root: Seq::empty(),
            stack: Seq::empty(),
            buffer: evs,
            pending: None,
        }),
    decreases evs,
{
    if evs.len() == 0 {
        assert(build_state_of(evs).buffer =~= evs);
    } else {
        assert(buffer_wf(evs.drop_last())) by {
            assert(forall|i: int|
                0 <= i < evs.drop_last().len() ==> evs.drop_last()[i] == evs[i]);
        }
        assert(marker_free(evs.drop_last())) by {
            assert forall|i: int|
                0 <= i < evs.drop_last().len() implies ((#[trigger] evs.drop_last()[i])
                is ParagraphEnd ==> !marker_tail(evs.drop_last().take(i))) by {
                assert(evs.drop_last()[i] == evs[i]);
                assert(evs.drop_last().take(i) =~= evs.take(i));
            }
        }
        lemma_build_plain(evs.drop_last());
        let st = build_state_of(evs.drop_last());
        let ev = evs.last();
        assert(!ev.is_heading_event());
        if ev is ParagraphEnd {
            assert(evs.take(evs.len() - 1) =~= evs.drop_last());
            assert(!marker_tail(st.buffer));
        }
        assert(state_step(st, ev).buffer =~= evs);
    }
}

/// A document with no headings and no marker paragraph renders as one
/// block: its tree is a single HTML element holding the rendering of the
/// whole stream.
pub proof fn lemma_toc_no_headings(evs: Seq<MdEvent>)
    requires
        evs.len() > 0,
        buffer_wf(evs),
        marker_free(evs),
    ensures
        toc_of(evs) == seq![TocElemView::Html(html_of(evs))],
{
    lemma_build_plain(evs);
    let st = build_state_of(evs);
    let flushed = state_flush(st);
    assert(flushed.stack.len() == 0);
    assert(toc_of(evs) =~= seq![TocElemView::Html(html_of(evs))]);
}

/// A paragraph holding only the literal marker text becomes exactly one
/// `TocReference` element — no stray rendered block — wherever the builder
/// stands, as long as nothing is buffered (a paragraph always starts at a
/// block boundary).
pub proof fn lemma_toc_marker_paragraph(
    st: BuildState,
    e1: MdEvent,
    e2: MdEvent,
    e3: MdEvent,
    e4: MdEvent,
    e5: MdEvent,
)
    requires
        st.buffer.len() == 0,
        e1 is ParagraphStart,
        e2.is_text(seq!['[']),
        e3.is_text(seq!['T', 'O', 'C']),
        e4.is_text(seq![']']),
        e5 is ParagraphEnd,
    ensures
        ({
            let st5 = state_step(
                state_step(state_step(state_step(state_step(st, e1), e2), e3), e4),
                e5,
            );
            st5 == state_push_elem(st, TocElemView::TocReference)
        }),
{
    let st4 = state_step(state_step(state_step(state_step(st, e1), e2), e3), e4);
    assert(st4.buffer =~= st.buffer.push(e1).push(e2).push(e3).push(e4));
    assert(st4.buffer.len() == 4);
    assert(marker_tail(st4.buffer));
    let st5 = state_step(st4, e5);
    assert(st4.buffer.take(0) =~= Seq::<MdEvent>::empty());
    assert(st.buffer =~= st4.buffer.take(0));
    assert(st5 =~~= state_push_elem(st, TocElemView::TocReference));
}

/// The same marker text in the middle of a paragraph stays literal: the
/// whole paragraph, extra text and all, is simply buffered for the next
/// rendered block.
pub proof fn lemma_toc_marker_mid_sentence(
    st: BuildState,
    e1: MdEvent,
    ex: MdEvent,
    e2: MdEvent,
    e3: MdEvent,
    e4: MdEvent,
    e5: MdEvent,
)
    requires
        st.buffer.len() == 0,
        e1 is ParagraphStart,
        ex is Text,
        e2.is_text(seq!['[']),
        e3.is_text(seq!['T', 'O', 'C']),
        e4.is_text(seq![']']),
        e5 is ParagraphEnd,
    ensures
        ({
            let st6 = state_step(
                state_step(state_step(state_step(state_step(state_step(st, e1), ex), e2), e3), e4),
                e5,
            );
            st6 == (BuildState {
                root: st.root,
                stack: st.stack,
                buffer: st.buffer.push(e1).push(ex).push(e2).push(e3).push(e4).push(e5),
                pending: st.pending,
            })
        }),
{
    let st5 = state_step(
        state_step(state_step(state_step(state_step(st, e1), ex), e2), e3),
        e4,
    );
    assert(st5.buffer =~= st.buffer.push(e1).push(ex).push(e2).push(e3).push(e4));
    assert(st5.buffer.len() == 5);
    assert(st5.buffer[1] == ex);
    assert(!marker_tail(st5.buffer));
    let st6 = state_step(st5, e5);
    assert(st6 =~~= (BuildState {
        root: st.root,
        stack: st.stack,
        buffer: st.buffer.push(e1).push(ex).push(e2).push(e3).push(e4).push(e5),
        pending: st.pending,
    }));
}

// ---------------------------------------------------------------------------
// The nesting law
// ---------------------------------------------------------------------------

/// The nesting invariant of a run of elements bounded by an ancestor
/// heading level: every node's heading lies strictly below the bound, and
/// its own children are bounded by it in turn.
pub open spec fn elems_nested_wf(s: Seq<TocElemView>, floor: int) -> bool
    decreases s,
{
    if s.len() == 0 {
        true
    } else {
        elems_nested_wf(s.drop_last(), floor) && elem_nested_wf(s.last(), floor)
    }
}

pub open spec fn elem_nested_wf(e: TocElemView, floor: int) -> bool
    decreases e,
{
    match e {
        TocElemView::Node(n) => floor < n.heading.level && elems_nested_wf(
            n.contents,
            n.heading.level as int,
        ),
        _ => true,
    }
}

/// The nesting invariant of a builder state: finished elements are nested
/// under their owners, open headings stand in strictly increasing levels,
/// and each frame closes at its own heading's level.
pub open spec fn state_nested_wf(st: BuildState) -> bool {
    &&& elems_nested_wf(st.root, 0)
    &&& forall|i: int|
        0 <= i < st.stack.len() ==> (#[trigger] st.stack[i]).heading.level == st.stack[i].floor
    &&& forall|i: int| 0 <= i < st.stack.len() ==> (#[trigger] st.stack[i]).floor >= 1
    &&& forall|i: int|
        0 <= i < st.stack.len() ==> elems_nested_wf(
            (#[trigger] st.stack[i]).elems,
            st.stack[i].floor as int,
        )
    &&& forall|i: int, j: int|
        0 <= i < j < st.stack.len() ==> (#[trigger] st.stack[i]).floor < (
        #[trigger] st.stack[j]).floor
}

proof fn lemma_wf_push(s: Seq<TocElemView>, e: TocElemView, floor: int)
    requires
        elems_nested_wf(s, floor),
        elem_nested_wf(e, floor),
    ensures
        elems_nested_wf(s.push(e), floor),
{
    assert(s.push(e).drop_last() =~= s);
    assert(s.push(e).last() == e);
}

/// Appending an element that respects the innermost bound keeps the state
/// nested.
proof fn lemma_push_elem_wf(st: BuildState, e: TocElemView)
    requires
        state_nested_wf(st),
        st.stack.len() == 0 ==> elem_nested_wf(e, 0),
        st.stack.len() > 0 ==> elem_nested_wf(e, st.stack.last().floor as int),
    ensures
        state_nested_wf(state_push_elem(st, e)),
        state_push_elem(st, e).stack.len() == st.stack.len(),
        forall|i: int|
            0 <= i < st.stack.len() ==> (#[trigger] state_push_elem(st, e).stack[i]).floor
                == st.stack[i].floor,
{
    if st.stack.len() == 0 {
        lemma_wf_push(st.root, e, 0);
    } else {
        let f = st.stack.last();
        lemma_wf_push(f.elems, e, f.floor as int);
        let st2 = state_push_elem(st, e);
        assert forall|i: int| 0 <= i < st2.stack.len() implies (#[trigger] st2.stack[i]).floor
            == st.stack[i].floor by {
            if i < st.stack.len() - 1 {
                assert(st2.stack[i] == st.stack[i]);
            }
        }
    }
}

/// Flushing keeps the state nested.
proof fn lemma_flush_wf(st: BuildState)
    requires
        state_nested_wf(st),
    ensures
        state_nested_wf(state_flush(st)),
        state_flush(st).stack.len() == st.stack.len(),
        forall|i: int|
            0 <= i < st.stack.len() ==> (#[trigger] state_flush(st).stack[i]).floor
                == st.stack[i].floor,
{
    if st.buffer.len() > 0 {
        let st2 = BuildState {
            root: st.root,
            stack: st.stack,
            buffer: Seq::empty(),
            pending: st.pending,
        };
        lemma_push_elem_wf(st2, TocElemView::Html(html_of(st.buffer)));
    }
}

/// Closing headings down to a level keeps the state nested, and every
/// remaining open heading lies strictly below the level.
proof fn lemma_pop_wf(st: BuildState, level: u8)
    requires
        state_nested_wf(st),
    ensures
        state_nested_wf(state_pop(st, level)),
        forall|i: int|
            0 <= i < state_pop(st, level).stack.len() ==> (#[trigger] state_pop(
                st,
                level,
            ).stack[i]).floor < level || level == 0,
        state_pop(st, level).stack.len() <= st.stack.len(),
        forall|i: int|
            0 <= i < state_pop(st, level).stack.len() ==> (#[trigger] state_pop(
                st,
                level,
            ).stack[i]).floor == st.stack[i].floor,
    decreases st.stack.len(),
{
    if st.stack.len() > 0 && st.stack.last().floor >= level {
        let f = st.stack.last();
        let st2 = BuildState {
            root: st.root,
            stack: st.stack.drop_last(),
            buffer: st.buffer,
            pending: st.pending,
        };
        assert forall|i: int| 0 <= i < st2.stack.len() implies ((#[trigger] st2.stack[i]).floor
            == st.stack[i].floor && st2.stack[i] == st.stack[i]) by {}
        assert(state_nested_wf(st2));
        let node = TocElemView::Node(TocNodeView { heading: f.heading, contents: f.elems });
        if st2.stack.len() == 0 {
            assert(elem_nested_wf(node, 0));
        } else {
            assert(st2.stack.last() == st.stack[st.stack.len() - 2]);
            assert(st2.stack.last().floor < f.floor);
            assert(elem_nested_wf(node, st2.stack.last().floor as int));
        }
        let st3 = state_push_elem(st2, node);
        lemma_push_elem_wf(st2, node);
        lemma_pop_wf(st3, level);
    }
}

/// One disciplined step keeps the state nested; while a heading is open,
/// every open frame lies strictly below its level.
proof fn lemma_step_wf(st: BuildState, ev: MdEvent, cur: Option<u8>, cur2: Option<u8>)
    requires
        state_nested_wf(st),
        match cur {
            Some(l) => l >= 1 && forall|i: int|
                0 <= i < st.stack.len() ==> (#[trigger] st.stack[i]).floor < l,
            None => true,
        },
        match ev {
            MdEvent::HeadingStart(l, _) => cur is None && l >= 1 && cur2 == Some(l),
            MdEvent::HeadingEnd(l) => cur == Some(l) && cur2 == None::<u8>,
            _ => cur2 == cur,
        },
    ensures
        state_nested_wf(state_step(st, ev)),
        match cur2 {
            Some(l) => l >= 1 && forall|i: int|
                0 <= i < state_step(st, ev).stack.len() ==> (#[trigger] state_step(
                    st,
                    ev,
                ).stack[i]).floor < l,
            None => true,
        },
{
    match ev {
        MdEvent::HeadingStart(level, _) => {
            lemma_flush_wf(st);
            lemma_pop_wf(state_flush(st), level);
            let popped = state_pop(state_flush(st), level);
            assert forall|i: int| 0 <= i < popped.stack.len() implies (
            #[trigger] popped.stack[i]).floor < level by {
                assert(popped.stack[i].floor < level || level == 0);
                assert(popped.stack[i].floor >= 1);
            }
            assert(state_step(st, ev).stack == popped.stack);
            assert(state_step(st, ev).root == popped.root);
        },
        MdEvent::HeadingEnd(level) => {
            let st2 = state_step(st, ev);
            assert(st2.stack.drop_last() =~= st.stack);
            assert forall|i: int| 0 <= i < st2.stack.len() implies ((#[trigger] st2.stack[i]).floor
                >= 1 && st2.stack[i].heading.level == st2.stack[i].floor && elems_nested_wf(
                st2.stack[i].elems,
                st2.stack[i].floor as int,
            )) by {
                if i < st.stack.len() {
                    assert(st2.stack[i] == st.stack[i]);
                }
            }
            assert forall|i: int, j: int| 0 <= i < j < st2.stack.len() implies (
            #[trigger] st2.stack[i]).floor < (#[trigger] st2.stack[j]).floor by {
                if j < st.stack.len() {
                    assert(st2.stack[i] == st.stack[i]);
                    assert(st2.stack[j] == st.stack[j]);
                } else {
                    assert(st2.stack[i] == st.stack[i]);
                    assert(st2.stack[j].floor == level);
                }
            }
        },
        MdEvent::ParagraphEnd => {
            if marker_tail(st.buffer) {
                let st2 = BuildState {
                    root: st.root,
                    stack: st.stack,
                    buffer: st.buffer.take(st.buffer.len() - 4),
                    pending: st.pending,
                };
                lemma_flush_wf(st2);
                let st3 = state_flush(st2);
                if st3.stack.len() == 0 {
                } else {
                    assert(st3.stack.last().floor == st.stack.last().floor);
                }
                lemma_push_elem_wf(st3, TocElemView::TocReference);
            }
        },
        _ => {},
    }
}

/// Building from a disciplined stream keeps the state nested.
proof fn lemma_build_nested_wf(evs: Seq<MdEvent>)
    requires
        heading_disciplined(evs),
    ensures
        state_nested_wf(build_state_of(evs)),
        match heading_phase(evs).unwrap() {
            Some(l) => l >= 1 && forall|i: int|
                0 <= i < build_state_of(evs).stack.len() ==> (#[trigger] build_state_of(
                    evs,
                ).stack[i]).floor < l,
            None => true,
        },
    decreases evs,
{
    if evs.len() == 0 {
    } else {
        lemma_build_nested_wf(evs.drop_last());
        let cur = heading_phase(evs.drop_last()).unwrap();
        let cur2 = heading_phase(evs).unwrap();
        lemma_step_wf(build_state_of(evs.drop_last()), evs.last(), cur, cur2);
    }
}

/// The nesting law: in the tree of any disciplined event stream, every node
/// bounded by an ancestor heading level holds only headings strictly deeper
/// than that level, all the way down. The top level is bounded by nothing.
pub proof fn lemma_toc_nesting(evs: Seq<MdEvent>)
    requires
        heading_disciplined(evs),
    ensures
        elems_nested_wf(toc_of(evs), 0),
{
    lemma_build_nested_wf(evs);
    let st = build_state_of(evs);
    lemma_flush_wf(st);
    lemma_pop_wf(state_flush(st), 0);
}

/// The nesting law for whole documents: every parsed document's tree is
/// properly nested, since the parser's heading events are disciplined.
pub proof fn lemma_toc_text_nesting(text: Seq<char>)
    requires
        heading_disciplined(events_of(text)),
    ensures
        elems_nested_wf(toc_of_text(text), 0),
{
    lemma_toc_nesting(events_of(text));
}

// ---------------------------------------------------------------------------
// The tree of contents of one document
// ---------------------------------------------------------------------------

/// The first heading among a run of elements, in order.
pub open spec fn primary_heading_of(s: Seq<TocElemView>) -> Option<Seq<char>>
    decreases s.len(),
{
    if s.len() == 0 {
        None
    } else {
        match s[0] {
            TocElemView::Node(n) => Some(n.heading.contents),
            _ => primary_heading_of(s.drop_first()),
        }
    }
}

/// The nodes among a run of elements, in order.
pub open spec fn nodes_of(s: Seq<TocElemView>) -> Seq<TocNodeView>
    decreases s,
{
    if s.len() == 0 {
        Seq::empty()
    } else {
        match s.last() {
            TocElemView::Node(n) => nodes_of(s.drop_last()).push(n),
            _ => nodes_of(s.drop_last()),
        }
    }
}

/// The depth-first, pre-order walk of a run of elements: each element,
/// followed by the walk of its children when it is a node.
pub open spec fn walk_of(s: Seq<TocElemView>) -> Seq<TocElemView>
    decreases s,
{
    if s.len() == 0 {
        Seq::empty()
    } else {
        walk_of(s.drop_last()) + walk_one(s.last())
    }
}

/// One element of the pre-order walk.
pub open spec fn walk_one(e: TocElemView) -> Seq<TocElemView>
    decreases e,
{
    match e {
        TocElemView::Node(n) => seq![e] + walk_of(n.contents),
        _ => seq![e],
    }
}

/// The views of a run of borrowed elements.
pub open spec fn refs_view(s: Seq<&TocElement>) -> Seq<TocElemView> {
    s.map_values(|e: &TocElement| elem_view(*e))
}

/// The views of a run of borrowed nodes.
pub open spec fn node_refs_view(s: Seq<&TocNode>) -> Seq<TocNodeView> {
    s.map_values(|n: &TocNode| node_view(*n))
}

/// The nodes directly among `elems`, in order.
fn nodes_in<'a>(elems: &'a Vec<TocElement>) -> (r: Vec<&'a TocNode>)
    ensures
        node_refs_view(r@) == nodes_of(elems_view(elems@)),
{
    let mut out: Vec<&TocNode> = Vec::new();
    let mut i: usize = 0;
    while i < elems.len()
        invariant
            i <= elems@.len(),
            node_refs_view(out@) == nodes_of(elems_view(elems@.take(i as int))),
        decreases elems@.len() - i,
    {
        let ghost prefix = elems_view(elems@.take(i as int));
        let ghost out0 = out@;
        proof {
            lemma_elems_view_push(elems@.take(i as int), elems@[i as int]);
            assert(elems@.take(i + 1) =~= elems@.take(i as int).push(elems@[i as int]));
            let v = prefix.push(elem_view(elems@[i as int]));
            assert(v.drop_last() =~= prefix);
        }
        match &elems[i] {
            TocElement::Node(n) => {
                out.push(n);
                proof {
                    assert(node_refs_view(out0.push(n)) =~= node_refs_view(out0).push(
                        node_view(*n),
                    ));
                }
            },
            _ => (),
        }
        i = i + 1;
    }
    proof {
        assert(elems@.take(elems@.len() as int) =~= elems@);
    }
    out
}

impl TocNode {
    /// The nodes directly below this node, in order.
    pub fn nodes<'a>(&'a self) -> (r: Vec<&'a TocNode>)
        ensures
            node_refs_view(r@) == nodes_of(node_view(*self).contents),
    {
        nodes_in(&self.contents)
    }
}

/// A tree of contents: the top-level elements of one document, mirroring
/// the nesting of its heading structure.
pub struct Toc(Vec<TocElement>);

impl View for Toc {
    type V = Seq<TocElemView>;

    closed spec fn view(&self) -> Seq<TocElemView> {
        elems_view(self.0@)
    }
}

impl Toc {
    /// Parse a tree of contents from a markdown document.
    pub fn new(markdown: &str) -> (r: Toc)
        ensures
            r@ == toc_of_text(markdown@),
    {
        Toc(parse_toc_events(crate::md::parse_events(markdown)))
    }

    /// The first heading within the top level of the tree, if any.
    pub fn primary_heading<'a>(&'a self) -> (r: Option<&'a String>)
        ensures
            match r {
                Some(t) => primary_heading_of(self@) == Some(t@),
                None => primary_heading_of(self@) is None,
            },
    {
        let n = self.0.len();
        proof {
            lemma_elems_view_len(self.0@);
            assert(self@.skip(0) =~= self@);
        }
        let mut i: usize = 0;
        while i < n
            invariant
                i <= n,
                n == self.0@.len(),
                n == self@.len(),
                primary_heading_of(self@) == primary_heading_of(self@.skip(i as int)),
            decreases n - i,
        {
            proof {
                lemma_elems_view_len(self.0@);
                assert(self@.skip(i as int)[0] == self@[i as int]);
                assert(self@.skip(i as int).drop_first() =~= self@.skip(i + 1));
            }
            match &self.0[i] {
                TocElement::Node(node) => {
                    return Some(&node.heading.contents);
                },
                _ => (),
            }
            i = i + 1;
        }
        proof {
            assert(self@.skip(n as int) =~= Seq::<TocElemView>::empty());
        }
        None
    }

    /// The nodes within the root of the tree, in order.
    pub fn nodes<'a>(&'a self) -> (r: Vec<&'a TocNode>)
        ensures
            node_refs_view(r@) == nodes_of(self@),
    {
        nodes_in(&self.0)
    }

    /// The depth-first, pre-order walk of the whole tree.
    pub fn walk_elements<'a>(&'a self) -> (r: Vec<&'a TocElement>)
        ensures
            refs_view(r@) == walk_of(self@),
    {
        let mut out: Vec<&TocElement> = Vec::new();
        walk_into(&self.0, &mut out);
        proof {
            assert(refs_view(Seq::<&TocElement>::empty()) =~= Seq::<TocElemView>::empty());
        }
        out
    }

    /// Unwrap the top-level elements.
    pub fn into_inner(self) -> (r: Vec<TocElement>)
        ensures
            elems_view(r@) == self@,
    {
        self.0
    }

    /// The top-level elements, by reference.
    pub fn elements<'a>(&'a self) -> (r: &'a Vec<TocElement>)
        ensures
            elems_view(r@) == self@,
    {
        &self.0
    }
}

/// Appends the pre-order walk of `elems` to `out`.
fn walk_into<'a>(elems: &'a Vec<TocElement>, out: &mut Vec<&'a TocElement>)
    ensures
        refs_view(final(out)@) == refs_view(old(out)@) + walk_of(elems_view(elems@)),
    decreases elems,
{
    let n = elems.len();
    proof {
        assert(elems@.take(0) =~= Seq::<TocElement>::empty());
        assert(refs_view(out@) =~= refs_view(out@) + walk_of(elems_view(elems@.take(0))));
    }
    let mut i: usize = 0;
    while i < n
        invariant
            i <= n,
            n == elems@.len(),
            refs_view(out@) == refs_view(old(out)@) + walk_of(elems_view(elems@.take(i as int))),
        decreases n - i,
    {
        let ghost prefix = elems_view(elems@.take(i as int));
        let ghost out0 = out@;
        let e = &elems[i];
        proof {
            lemma_elems_view_push(elems@.take(i as int), elems@[i as int]);
            assert(elems@.take(i + 1) =~= elems@.take(i as int).push(elems@[i as int]));
            let v = prefix.push(elem_view(*e));
            assert(v.drop_last() =~= prefix);
            assert(walk_of(v) == walk_of(prefix) + walk_one(elem_view(*e)));
        }
        out.push(e);
        proof {
            assert(refs_view(out0.push(e)) =~= refs_view(out0).push(elem_view(*e)));
        }
        match e {
            TocElement::Node(node) => {
                let ghost out1 = out@;
                walk_into(&node.contents, out);
                proof {
                    assert(walk_one(elem_view(*e)) == seq![elem_view(*e)] + walk_of(
                        elems_view(node.contents@),
                    ));
                    assert(refs_view(out@) =~= refs_view(old(out)@) + walk_of(
                        elems_view(elems@.take(i + 1)),
                    ));
                }
            },
            _ => {
                proof {
                    assert(walk_one(elem_view(*e)) =~= seq![elem_view(*e)]);
                    assert(refs_view(out@) =~= refs_view(old(out)@) + walk_of(
                        elems_view(elems@.take(i + 1)),
                    ));
                }
            },
        }
        i = i + 1;
    }
    proof {
        assert(elems@.take(n as int) =~= elems@);
    }
}

/// Parse a TOC tree from the events of one markdown document.
pub fn parse_toc_events(mut evs: Vec<MdEvent>) -> (r: Vec<TocElement>)
    ensures
        elems_view(r@) == toc_of(evs@),
{
    let ghost evs0 = evs@;
    let ghost mut done = Seq::<MdEvent>::empty();
    let mut b = TocBuilder::new();
    proof {
        assert(done + evs@ =~= evs0);
    }
    while evs.len() > 0
        invariant
            done + evs@ == evs0,
            b@ == build_state_of(done),
            buffer_wf(b@.buffer),
        decreases evs.len(),
    {
        let ghost pre = evs@;
        let ev = evs.remove(0);
        b.step(ev);
        proof {
            assert(done.push(ev).drop_last() =~= done);
            assert(build_state_of(done.push(ev)) == state_step(build_state_of(done), ev));
            assert(done.push(ev) + evs@ =~= done + pre);
            done = done.push(ev);
        }
    }
    proof {
        assert(done =~= done + evs@);
    }
    b.finish()
}

} // verus!
