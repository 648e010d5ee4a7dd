//! What the tokenizer produces: lexical events, and diagnostics about malformed markup.

use vstd::prelude::*;

verus! {

/// One unit of lexical output.
#[derive(Debug, PartialEq, Eq)]
pub enum Event {
    /// A start tag was recognized; holds the tag name.
    StartElement(String),
    /// An element was closed, by an explicit close tag or by a self-closing start tag.
    EndElement(String),
    /// A non-empty, normalized run of text between tags.
    TextContent(String),
    /// An attribute of the most recent start tag: key and value.
    Attribute(String, String),
}

/// The mathematical content of an [`Event`]: the same variants over character sequences.
pub enum EventView {
    StartElement(Seq<char>),
    EndElement(Seq<char>),
    TextContent(Seq<char>),
    Attribute(Seq<char>, Seq<char>),
}

impl View for Event {
    type V = EventView;

    open spec fn view(&self) -> EventView {
        match self {
            Event::StartElement(name) => EventView::StartElement(name@),
            Event::EndElement(name) => EventView::EndElement(name@),
            Event::TextContent(text) => EventView::TextContent(text@),
            Event::Attribute(key, value) => EventView::Attribute(key@, value@),
        }
    }
}

/// A non-fatal complaint about the markup. Tokenizing always continues after one.
#[derive(Clone, Copy, Debug, PartialEq, Eq, Structural)]
pub enum Diagnostic {
    /// A close tag's name differs from the innermost open element, or none is open.
    MismatchedCloseTag,
    /// No `>` or `/>` was found where a start tag should end.
    MalformedStartTag,
    /// No `>` was found directly after a close tag's name.
    MalformedCloseTag,
    /// A self-closing tag was processed while no element was open.
    OrphanSelfClose,
}

/// The views of a vector of events, in order.
pub open spec fn event_views(events: Seq<Event>) -> Seq<EventView> {
    Seq::new(events.len(), |i: int| events[i]@)
}

/// The views of a vector of strings, in order.
pub open spec fn string_views(strings: Seq<String>) -> Seq<Seq<char>> {
    Seq::new(strings.len(), |i: int| strings[i]@)
}

} // verus!
