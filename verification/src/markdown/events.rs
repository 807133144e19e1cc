//! The CommonMark events of a text, as `pulldown_cmark` reports them, kept
//! to what highlighting and link extraction read.

use pulldown_cmark::CowStr::Borrowed;
use pulldown_cmark::Event::{Code, End, Start, Text};
use pulldown_cmark::Tag::{Emphasis, Heading, Link, Strong};
use pulldown_cmark::{Parser, TagEnd};
use std::ops::Range;
use vstd::prelude::*;

verus! {

/// One parser event with its byte range. A text or destination is kept
/// when the parser hands it out as a slice of the input.
pub enum MdEvent<'a> {
    /// The start of a link: its byte range and destination.
    Link(usize, usize, Option<&'a str>),
    /// The end of a link: the end of its byte range.
    LinkEnd(usize),
    /// A text node.
    Text(Option<&'a str>),
    /// The start of a heading, emphasis or strong emphasis: its byte range.
    Heading(usize, usize),
    Emphasis(usize, usize),
    Strong(usize, usize),
    /// An inline code span: its byte range.
    Code(usize, usize),
    /// Any other event.
    Other,
}

/// What an event says, with texts as characters.
pub enum EventModel {
    Link(usize, usize, Option<Seq<char>>),
    LinkEnd(usize),
    Text(Option<Seq<char>>),
    Heading(usize, usize),
    Emphasis(usize, usize),
    Strong(usize, usize),
    Code(usize, usize),
    Other,
}

impl<'a> View for MdEvent<'a> {
    type V = EventModel;

    open spec fn view(&self) -> EventModel {
        match *self {
            MdEvent::Link(s, e, d) => EventModel::Link(s, e, match d {
                Some(t) => Some(t@),
                None => None,
            }),
            MdEvent::LinkEnd(e) => EventModel::LinkEnd(e),
            MdEvent::Text(t) => EventModel::Text(match t {
                Some(x) => Some(x@),
                None => None,
            }),
            MdEvent::Heading(s, e) => EventModel::Heading(s, e),
            MdEvent::Emphasis(s, e) => EventModel::Emphasis(s, e),
            MdEvent::Strong(s, e) => EventModel::Strong(s, e),
            MdEvent::Code(s, e) => EventModel::Code(s, e),
            MdEvent::Other => EventModel::Other,
        }
    }
}

/// The events `pulldown_cmark` reports for a text.
pub uninterp spec fn markdown_events(text: Seq<char>) -> Seq<EventModel>;

/// The views of a list of events.
pub open spec fn event_views<'a>(events: Seq<MdEvent<'a>>) -> Seq<EventModel> {
    events.map_values(|e: MdEvent<'a>| e@)
}

/// `Parser::new(text).into_offset_iter()` of `pulldown_cmark`, each event
/// told apart by its variant: the result is a function of the text alone.
#[verifier::external_body]
pub(crate) fn markdown_event_list<'a>(text: &'a str) -> (r: Vec<MdEvent<'a>>)
    ensures
        event_views(r@) == markdown_events(text@),
{
    Parser::new(text).into_offset_iter().map(|(e, Range { start: s, end: t })| match e {
        Start(Link { dest_url: Borrowed(d), .. }) => MdEvent::Link(s, t, Some(d)),
        Start(Link { .. }) => MdEvent::Link(s, t, None),
        End(TagEnd::Link) => MdEvent::LinkEnd(t),
        Text(Borrowed(x)) => MdEvent::Text(Some(x)),
        Text(_) => MdEvent::Text(None),
        Start(Heading { .. }) => MdEvent::Heading(s, t),
        Start(Emphasis) => MdEvent::Emphasis(s, t),
        Start(Strong) => MdEvent::Strong(s, t),
        Code(_) => MdEvent::Code(s, t),
        _ => MdEvent::Other,
    }).collect()
}

} // verus!
