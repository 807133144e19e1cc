//! Markdown links `[display](dest#heading)`, read from the parser's events.

use vstd::prelude::*;
use vstd::string::*;
use crate::markdown::chars::{find_char, find_from, has_prefix, starts_with};
use crate::markdown::events::{EventModel, MdEvent, event_views, markdown_event_list, markdown_events};
use crate::markdown::wikilink::{LinkModel, opt_chars};

verus! {

#[derive(Debug, PartialEq, Eq)]
pub struct MarkdownLink<'a> {
    pub dest: &'a str,
    pub heading: Option<&'a str>,
    pub display: &'a str,
    pub span: (usize, usize),
}

impl<'a> View for MarkdownLink<'a> {
    type V = LinkModel;

    open spec fn view(&self) -> LinkModel {
        LinkModel {
            target: self.dest@,
            heading: opt_chars(self.heading),
            display: self.display@,
            span: (self.span.0 as int, self.span.1 as int),
        }
    }
}

/// The destination leads outside the notes: a web or mail address.
pub open spec fn external_dest(dest: Seq<char>) -> bool {
    ||| has_prefix(dest, "https://"@)
    ||| has_prefix(dest, "http://"@)
    ||| has_prefix(dest, "mailto:"@)
}

/// Web and mail addresses are external: a destination that starts with
/// `http://`, `https://` or `mailto:` is external whatever follows.
pub proof fn lemma_web_and_mail_external(rest: Seq<char>)
    ensures
        external_dest("http://"@ + rest),
        external_dest("https://"@ + rest),
        external_dest("mailto:"@ + rest),
{
    reveal_strlit("http://");
    reveal_strlit("https://");
    reveal_strlit("mailto:");
    assert(("http://"@ + rest).subrange(0, 7) =~= "http://"@);
    assert(("https://"@ + rest).subrange(0, 8) =~= "https://"@);
    assert(("mailto:"@ + rest).subrange(0, 7) =~= "mailto:"@);
}

/// Only a destination with one of those prefixes is external.
pub proof fn lemma_external_has_web_or_mail_prefix(dest: Seq<char>)
    requires
        external_dest(dest),
    ensures
        exists|rest: Seq<char>|
            dest == "http://"@ + rest || dest == "https://"@ + rest || dest == "mailto:"@ + rest,
{
    reveal_strlit("http://");
    reveal_strlit("https://");
    reveal_strlit("mailto:");
    if has_prefix(dest, "https://"@) {
        let rest = dest.subrange(8, dest.len() as int);
        assert(dest =~= "https://"@ + rest);
    } else if has_prefix(dest, "http://"@) {
        let rest = dest.subrange(7, dest.len() as int);
        assert(dest =~= "http://"@ + rest);
    } else {
        let rest = dest.subrange(7, dest.len() as int);
        assert(dest =~= "mailto:"@ + rest);
    }
}

impl<'a> MarkdownLink<'a> {
    pub fn is_external(&self) -> (b: bool)
        ensures
            b == external_dest(self.dest@),
    {
        starts_with(self.dest, "https://") || starts_with(self.dest, "http://") || starts_with(
            self.dest,
            "mailto:",
        )
    }
}

/// The characters of a text the parser handed out, or none.
pub open spec fn chars_or_empty(t: Option<Seq<char>>) -> Seq<char> {
    match t {
        Some(c) => c,
        None => Seq::empty(),
    }
}

/// The link over bytes `span` with display text `display` and raw
/// destination `raw`, split at its first `#` into destination and heading.
pub open spec fn link_model(raw: Seq<char>, display: Seq<char>, span: (int, int)) -> LinkModel {
    match find_from(raw, '#', 0) {
        Some(h) => LinkModel {
            target: raw.subrange(0, h),
            heading: Some(raw.subrange(h + 1, raw.len() as int)),
            display,
            span,
        },
        None => LinkModel { target: raw, heading: None, display, span },
    }
}

/// Reading state: the open link (start and raw destination), the display
/// text so far, and the links found.
pub type LinkScan = (Option<(int, Seq<char>)>, Seq<char>, Seq<LinkModel>);

/// One event read: a link start opens a link, a text inside a link becomes
/// its display text, and a link end closes the open link and clears the
/// display text.
pub open spec fn link_step(st: LinkScan, e: EventModel) -> LinkScan {
    match e {
        EventModel::Link(start, _, d) => (Some((start as int, chars_or_empty(d))), st.1, st.2),
        EventModel::Text(t) => if st.0 is Some {
            (st.0, chars_or_empty(t), st.2)
        } else {
            st
        },
        EventModel::LinkEnd(end) => match st.0 {
            Some((start, raw)) => (None, Seq::empty(), st.2.push(link_model(raw, st.1, (start, end as int)))),
            None => st,
        },
        _ => st,
    }
}

/// The state after reading `es` in order.
pub open spec fn link_scan(es: Seq<EventModel>) -> LinkScan
    decreases es.len(),
{
    if es.len() == 0 {
        (None, Seq::empty(), Seq::empty())
    } else {
        link_step(link_scan(es.drop_last()), es.last())
    }
}

/// The links written in the events `es`.
pub open spec fn links_of(es: Seq<EventModel>) -> Seq<LinkModel> {
    link_scan(es).2
}

fn split_dest<'a>(raw: &'a str, display: &'a str, start: usize, end: usize) -> (l: MarkdownLink<'a>)
    ensures
        l@ == link_model(raw@, display@, (start as int, end as int)),
{
    let n = raw.unicode_len();
    match find_char(raw, '#', 0) {
        Some(h) => MarkdownLink {
            dest: raw.substring_char(0, h),
            heading: Some(raw.substring_char(h + 1, n)),
            display,
            span: (start, end),
        },
        None => MarkdownLink { dest: raw, heading: None, display, span: (start, end) },
    }
}

/// The links written in a list of parser events.
pub fn links_from_events<'a>(events: &Vec<MdEvent<'a>>) -> (links: Vec<MarkdownLink<'a>>)
    ensures
        links@.map_values(|l: MarkdownLink<'a>| l@) == links_of(event_views(events@)),
{
    let ghost es = event_views(events@);
    let mut links: Vec<MarkdownLink<'a>> = Vec::new();
    let mut current: Option<(usize, &'a str)> = None;
    let mut display: &'a str = "";
    proof {
        reveal_strlit("");
    }
    let mut i: usize = 0;
    while i < events.len()
        invariant
            i <= events@.len(),
            es == event_views(events@),
            ({
                let st = link_scan(es.subrange(0, i as int));
                &&& st.0 == match current {
                    Some((s, d)) => Some((s as int, d@)),
                    None => None,
                }
                &&& st.1 == display@
                &&& st.2 == links@.map_values(|l: MarkdownLink<'a>| l@)
            }),
        decreases events@.len() - i,
    {
        let ghost before = links@.map_values(|l: MarkdownLink<'a>| l@);
        proof {
            assert(es.subrange(0, i + 1).drop_last() =~= es.subrange(0, i as int));
            assert(es.subrange(0, i + 1).last() == events@[i as int]@);
            reveal_strlit("");
        }
        match &events[i] {
            MdEvent::Link(start, _, dest) => {
                let raw: &'a str = match dest {
                    Some(d) => *d,
                    None => "",
                };
                current = Some((*start, raw));
            },
            MdEvent::Text(t) => {
                if current.is_some() {
                    display = match t {
                        Some(x) => *x,
                        None => "",
                    };
                }
            },
            MdEvent::LinkEnd(end) => {
                match current {
                    Some((start, raw)) => {
                        let link = split_dest(raw, display, start, *end);
                        links.push(link);
                        assert(links@.map_values(|l: MarkdownLink<'a>| l@) =~= before.push(link@));
                        current = None;
                        display = "";
                    },
                    None => {},
                }
            },
            _ => {},
        }
        i += 1;
    }
    assert(es.subrange(0, events@.len() as int) =~= es);
    links
}

/// The markdown links of `text`, in the order the parser reports them.
pub fn parse_markdown_links<'a>(text: &'a str) -> (links: Vec<MarkdownLink<'a>>)
    ensures
        links@.map_values(|l: MarkdownLink<'a>| l@) == links_of(markdown_events(text@)),
{
    let events = markdown_event_list(text);
    links_from_events(&events)
}

} // verus!
