//! The markdown event boundary.
//!
//! The table-of-contents builder works on a plain event vocabulary,
//! [`MdEvent`], that exposes exactly what its logic reads: heading
//! boundaries with their level and optional explicit fragment identifier,
//! paragraph boundaries, and the textual payload of text, inline-code and
//! HTML events. Every other parse event is carried through opaquely, so a
//! buffered run of events can be rendered back to HTML unchanged.
//!
//! Parsing a document into events and rendering events to HTML are the work
//! of `pulldown-cmark`, reached only through the trusted wrappers here. Both
//! results are pure functions of their textual input, so each is given a
//! name (`events_of`, `html_of`, `markdown_html_of`) that the rest of the
//! library's contracts can speak of.

use vstd::prelude::*;

verus! {

#[verifier::external_type_specification]
#[verifier::external_body]
pub struct ExEvent<'a>(pulldown_cmark::Event<'a>);

/// One markdown parse event, as the TOC builder sees it.
pub enum MdEvent {
    /// A heading opens: its level (1-6) and explicit fragment id, if any.
    HeadingStart(u8, Option<String>),
    /// A heading of the given level closes.
    HeadingEnd(u8),
    /// A paragraph opens.
    ParagraphStart,
    /// A paragraph closes.
    ParagraphEnd,
    /// A text node.
    Text(String),
    /// An inline code span.
    Code(String),
    /// An HTML node (block or inline).
    Html(String),
    /// Any other event, carried through for HTML rendering only.
    Other(pulldown_cmark::Event<'static>),
}

impl MdEvent {
    /// True of the two heading-boundary events, which the TOC builder always
    /// consumes itself and never leaves in a content buffer.
    pub open spec fn is_heading_event(self) -> bool {
        self is HeadingStart || self is HeadingEnd
    }

    /// True when `self` is a text node holding exactly `s`.
    pub open spec fn is_text(self, s: Seq<char>) -> bool {
        self matches MdEvent::Text(t) && t@ == s
    }
}

/// What `pulldown_cmark::Parser::new_ext`, with the extensions named at
/// [`parse_events`], yields for a document: a function of the text alone.
pub uninterp spec fn events_of(text: Seq<char>) -> Seq<MdEvent>;

/// Heading boundaries are disciplined: starts and ends alternate, each end
/// closes the open start's level, no heading nests in another, and levels
/// are positive. The inner option is the level of the heading that is still
/// open, if one is.
pub open spec fn heading_phase(evs: Seq<MdEvent>) -> Option<Option<u8>>
    decreases evs,
{
    if evs.len() == 0 {
        Some(None)
    } else {
        match heading_phase(evs.drop_last()) {
            None => None,
            Some(cur) => match evs.last() {
                MdEvent::HeadingStart(l, _) => if cur is None && l >= 1 {
                    Some(Some(l))
                } else {
                    None
                },
                MdEvent::HeadingEnd(l) => if cur == Some(l) {
                    Some(None)
                } else {
                    None
                },
                _ => Some(cur),
            },
        }
    }
}

pub open spec fn heading_disciplined(evs: Seq<MdEvent>) -> bool {
    heading_phase(evs) is Some
}

/// What `pulldown_cmark::html::push_html` emits for a buffered run of
/// events: a function of the events alone.
pub uninterp spec fn html_of(evs: Seq<MdEvent>) -> Seq<char>;

/// The plain CommonMark HTML rendering of a markdown string, as
/// `pulldown_cmark::Parser::new` plus `push_html` produce it.
pub uninterp spec fn markdown_html_of(text: Seq<char>) -> Seq<char>;

/// Relies on `pulldown_cmark::Parser::new_ext`, with tables, footnotes,
/// strikethrough, task lists and heading attributes enabled (smart
/// punctuation stays off so plain text keeps its source characters for
/// slugs and search terms): the parse events of a document are a function
/// of its text alone. Each event is translated, one variant to one variant,
/// into the library's vocabulary; events the TOC builder does not read are
/// carried through opaquely.
///
/// The parser documents that start and end events are balanced, headings
/// are leaf blocks (one opens only after the previous one closed, at the
/// same level), and heading levels run 1 through 6; so the stream is
/// heading-disciplined.
#[verifier::external_body]
pub fn parse_events(text: &str) -> (evs: Vec<MdEvent>)
    ensures
        evs@ == events_of(text@),
        heading_disciplined(evs@),
{
    let options = pulldown_cmark::Options::ENABLE_TABLES | pulldown_cmark::Options::ENABLE_FOOTNOTES
        | pulldown_cmark::Options::ENABLE_STRIKETHROUGH | pulldown_cmark::Options::ENABLE_TASKLISTS
        | pulldown_cmark::Options::ENABLE_HEADING_ATTRIBUTES;
    pulldown_cmark::Parser::new_ext(text, options).map(event_from_pulldown).collect()
}

/// Relies on `pulldown_cmark::Event`: translates one parse event into the
/// library's vocabulary, moving its fields; nothing else.
#[verifier::external_body]
fn event_from_pulldown(ev: pulldown_cmark::Event<'_>) -> MdEvent {
    match ev {
        pulldown_cmark::Event::Start(pulldown_cmark::Tag::Heading { level, id, .. }) =>
            MdEvent::HeadingStart(level as u8, id.map(|s| s.to_string())),
        pulldown_cmark::Event::End(pulldown_cmark::TagEnd::Heading(level)) =>
            MdEvent::HeadingEnd(level as u8),
        pulldown_cmark::Event::Start(pulldown_cmark::Tag::Paragraph) => MdEvent::ParagraphStart,
        pulldown_cmark::Event::End(pulldown_cmark::TagEnd::Paragraph) => MdEvent::ParagraphEnd,
        pulldown_cmark::Event::Text(t) => MdEvent::Text(t.to_string()),
        pulldown_cmark::Event::Code(t) => MdEvent::Code(t.to_string()),
        pulldown_cmark::Event::Html(t) => MdEvent::Html(t.to_string()),
        pulldown_cmark::Event::InlineHtml(t) => MdEvent::Html(t.to_string()),
        other => MdEvent::Other(other.into_static()),
    }
}

/// Relies on `pulldown_cmark::Event`: translates one buffered event of the
/// library's vocabulary back to the parser's, moving its fields. The caller
/// never buffers heading boundaries, so those map to an empty text node.
#[verifier::external_body]
fn event_to_pulldown(ev: &MdEvent) -> pulldown_cmark::Event<'static> {
    match ev {
        MdEvent::ParagraphStart => pulldown_cmark::Event::Start(pulldown_cmark::Tag::Paragraph),
        MdEvent::ParagraphEnd => pulldown_cmark::Event::End(pulldown_cmark::TagEnd::Paragraph),
        MdEvent::Text(s) => pulldown_cmark::Event::Text(s.clone().into()),
        MdEvent::Code(s) => pulldown_cmark::Event::Code(s.clone().into()),
        MdEvent::Html(s) => pulldown_cmark::Event::Html(s.clone().into()),
        MdEvent::Other(e) => e.clone(),
        _ => pulldown_cmark::Event::Text("".into()),
    }
}

/// Relies on `pulldown_cmark::html::push_html`: the HTML for a run of
/// events is a function of those events alone. Heading boundaries never
/// stand in a buffer, so the translation back is faithful.
#[verifier::external_body]
pub fn render_events(evs: &Vec<MdEvent>) -> (r: String)
    requires
        forall|i: int| 0 <= i < evs@.len() ==> !evs@[i].is_heading_event(),
    ensures
        r@ == html_of(evs@),
{
    let mut out = String::new();
    pulldown_cmark::html::push_html(&mut out, evs.iter().map(event_to_pulldown));
    out
}

/// Relies on `pulldown_cmark::Parser::new` and `html::push_html`: the plain
/// CommonMark HTML rendering of a markdown string, a function of the text.
#[verifier::external_body]
pub fn render_markdown(text: &str) -> (r: String)
    ensures
        r@ == markdown_html_of(text@),
{
    let mut out = String::new();
    pulldown_cmark::html::push_html(&mut out, pulldown_cmark::Parser::new(text));
    out
}

} // verus!
