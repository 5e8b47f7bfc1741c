//! The structural events that a template is scanned into, one group per
//! source line.
use vstd::prelude::*;

verus! {

/// The model of one capture of a tag declaration.
pub enum PartView {
    /// The tag's explicit name.
    Element(Seq<char>),
    /// A class given as `.name`.
    Class(Seq<char>),
    /// An id given as `#name`.
    Id(Seq<char>),
    /// An entry `key=value` of the attribute list: `quoted` is the value as
    /// written, quotes included, and `value` is what stands between them.
    Attr { key: Seq<char>, quoted: Seq<char>, value: Seq<char> },
}

/// The model of a structural event.
pub enum EventView {
    /// A line starts with this much indentation.
    Indent(nat),
    Doctype(Seq<char>),
    IncludeTarget(Seq<char>),
    /// A tag declaration with its captures in source order.
    TagOpen(Seq<PartView>),
    Comment,
    Text(Seq<char>),
    EndOfInput,
}

/// One capture of a tag declaration.
#[derive(Debug, PartialEq, Eq)]
pub enum TagPart {
    Element(String),
    Class(String),
    Id(String),
    Attr { key: String, quoted: String, value: String },
}

/// A structural event.
#[derive(Debug, PartialEq, Eq)]
pub enum Event {
    Indent(usize),
    Doctype(String),
    IncludeTarget(String),
    TagOpen(Vec<TagPart>),
    Comment,
    Text(String),
    EndOfInput,
}

impl View for TagPart {
    type V = PartView;

    open spec fn view(&self) -> PartView {
        match *self {
            TagPart::Element(s) => PartView::Element(s@),
            TagPart::Class(s) => PartView::Class(s@),
            TagPart::Id(s) => PartView::Id(s@),
            TagPart::Attr { key, quoted, value } => PartView::Attr {
                key: key@,
                quoted: quoted@,
                value: value@,
            },
        }
    }
}

/// The models of a list of captures.
pub open spec fn parts_view(v: Seq<TagPart>) -> Seq<PartView> {
    v.map_values(|p: TagPart| p@)
}

impl View for Event {
    type V = EventView;

    open spec fn view(&self) -> EventView {
        match *self {
            Event::Indent(w) => EventView::Indent(w as nat),
            Event::Doctype(s) => EventView::Doctype(s@),
            Event::IncludeTarget(s) => EventView::IncludeTarget(s@),
            Event::TagOpen(parts) => EventView::TagOpen(parts_view(parts@)),
            Event::Comment => EventView::Comment,
            Event::Text(s) => EventView::Text(s@),
            Event::EndOfInput => EventView::EndOfInput,
        }
    }
}

/// The models of a list of events.
pub open spec fn events_view(v: Seq<Event>) -> Seq<EventView> {
    v.map_values(|e: Event| e@)
}

/// Appending to a list of captures appends to its model.
pub proof fn lemma_parts_push(v: Seq<TagPart>, p: TagPart)
    ensures
        parts_view(v.push(p)) == parts_view(v).push(p@),
{
    assert(parts_view(v.push(p)) =~= parts_view(v).push(p@));
}

/// Appending to a list of events appends to its model.
pub proof fn lemma_events_push(v: Seq<Event>, e: Event)
    ensures
        events_view(v.push(e)) == events_view(v).push(e@),
{
    assert(events_view(v.push(e)) =~= events_view(v).push(e@));
}

} // verus!
