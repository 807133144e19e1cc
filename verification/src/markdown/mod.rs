//! Markdown: highlight spans and their styles, links between notes.

pub mod chars;
pub mod events;
pub mod frontmatter;
pub mod link;
pub mod wikilink;

use vstd::prelude::*;
use vstd::string::*;
use crate::markdown::events::{EventModel, MdEvent, event_views, markdown_event_list, markdown_events};
use crate::markdown::link::{MarkdownLink, external_dest, links_of, parse_markdown_links};
use crate::markdown::wikilink::{LinkModel, Wikilinks, opt_chars, parse_wikilinks, wikilinks_from};
use crate::render::{Colour, Style};

verus! {

#[derive(Debug, PartialEq, Eq, Structural, Clone, Copy)]
pub enum HighlightKind {
    Heading,
    Emphasis,
    Bold,
    Code,
    Link,
}

/// A styled byte range `start..end` of the text.
#[derive(Debug, PartialEq, Eq, Structural, Clone, Copy)]
pub struct Highlight {
    pub start: usize,
    pub end: usize,
    pub kind: HighlightKind,
}

/// The theme: headings bold lavender, emphasis muted rose, bold warm white,
/// code a green chip on a dark background, links blue.
pub open spec fn kind_style(kind: HighlightKind) -> Style {
    match kind {
        HighlightKind::Heading => Style { bold: true, fg: Some(Colour::Rgb(190, 180, 255)), bg: None },
        HighlightKind::Emphasis => Style { bold: false, fg: Some(Colour::Rgb(220, 160, 180)), bg: None },
        HighlightKind::Bold => Style { bold: true, fg: Some(Colour::Rgb(240, 230, 210)), bg: None },
        HighlightKind::Code => Style {
            bold: false,
            fg: Some(Colour::Rgb(180, 200, 180)),
            bg: Some(Colour::Rgb(40, 44, 52)),
        },
        HighlightKind::Link => Style { bold: false, fg: Some(Colour::Rgb(100, 180, 255)), bg: None },
    }
}

pub fn style_for(kind: HighlightKind) -> (s: Style)
    ensures
        s == kind_style(kind),
{
    match kind {
        HighlightKind::Heading => Style::new(true, Some(Colour::Rgb(190, 180, 255)), None),
        HighlightKind::Emphasis => Style::new(false, Some(Colour::Rgb(220, 160, 180)), None),
        HighlightKind::Bold => Style::new(true, Some(Colour::Rgb(240, 230, 210)), None),
        HighlightKind::Code => Style::new(
            false,
            Some(Colour::Rgb(180, 200, 180)),
            Some(Colour::Rgb(40, 44, 52)),
        ),
        HighlightKind::Link => Style::new(false, Some(Colour::Rgb(100, 180, 255)), None),
    }
}


/// The highlight an event starts: headings, emphasis, strong emphasis
/// (bold), inline code and links, over the event's byte range.
pub open spec fn event_highlight(e: EventModel) -> Option<Highlight> {
    match e {
        EventModel::Heading(s, t) => Some(Highlight { start: s, end: t, kind: HighlightKind::Heading }),
        EventModel::Emphasis(s, t) => Some(Highlight { start: s, end: t, kind: HighlightKind::Emphasis }),
        EventModel::Strong(s, t) => Some(Highlight { start: s, end: t, kind: HighlightKind::Bold }),
        EventModel::Code(s, t) => Some(Highlight { start: s, end: t, kind: HighlightKind::Code }),
        EventModel::Link(s, t, _) => Some(Highlight { start: s, end: t, kind: HighlightKind::Link }),
        _ => None,
    }
}

/// The highlights the events `es` start, in order.
pub open spec fn highlights_of(es: Seq<EventModel>) -> Seq<Highlight>
    decreases es.len(),
{
    if es.len() == 0 {
        Seq::empty()
    } else {
        highlights_of(es.drop_last()) + match event_highlight(es.last()) {
            Some(h) => seq![h],
            None => Seq::empty(),
        }
    }
}

/// The highlights a list of parser events starts.
pub fn highlights_from_events(events: &Vec<MdEvent>) -> (spans: Vec<Highlight>)
    ensures
        spans@ == highlights_of(event_views(events@)),
{
    let ghost es = event_views(events@);
    let mut spans: Vec<Highlight> = Vec::new();
    let mut i: usize = 0;
    while i < events.len()
        invariant
            i <= events@.len(),
            es == event_views(events@),
            spans@ == highlights_of(es.subrange(0, i as int)),
        decreases events@.len() - i,
    {
        proof {
            assert(es.subrange(0, i + 1).drop_last() =~= es.subrange(0, i as int));
            assert(es.subrange(0, i + 1).last() == events@[i as int]@);
        }
        let found = match &events[i] {
            MdEvent::Heading(s, e) => Some(Highlight { start: *s, end: *e, kind: HighlightKind::Heading }),
            MdEvent::Emphasis(s, e) => Some(Highlight { start: *s, end: *e, kind: HighlightKind::Emphasis }),
            MdEvent::Strong(s, e) => Some(Highlight { start: *s, end: *e, kind: HighlightKind::Bold }),
            MdEvent::Code(s, e) => Some(Highlight { start: *s, end: *e, kind: HighlightKind::Code }),
            MdEvent::Link(s, e, _) => Some(Highlight { start: *s, end: *e, kind: HighlightKind::Link }),
            _ => None,
        };
        let ghost before = spans@;
        match found {
            Some(h) => {
                spans.push(h);
                assert(spans@ =~= before + seq![h]);
            },
            None => {
                assert(spans@ =~= before + Seq::<Highlight>::empty());
            },
        }
        i += 1;
    }
    assert(es.subrange(0, events@.len() as int) =~= es);
    spans
}

/// The highlights of `text`: headings, emphasis, bold, inline code and
/// links, in the order the parser reports them.
pub fn highlight(text: &str) -> (spans: Vec<Highlight>)
    ensures
        spans@ == highlights_of(markdown_events(text@)),
{
    let events = markdown_event_list(text);
    highlights_from_events(&events)
}


/// A link between notes, from a wikilink or from a markdown link whose
/// destination is a note.
#[derive(Debug, PartialEq, Eq)]
pub struct NoteLink<'a> {
    pub target: &'a str,
    pub heading: Option<&'a str>,
    pub display: &'a str,
    pub span: (usize, usize),
}

impl<'a> View for NoteLink<'a> {
    type V = LinkModel;

    open spec fn view(&self) -> LinkModel {
        LinkModel {
            target: self.target@,
            heading: opt_chars(self.heading),
            display: self.display@,
            span: (self.span.0 as int, self.span.1 as int),
        }
    }
}

/// The links of `ls` that lead to notes, in order.
pub open spec fn internal_links(ls: Seq<LinkModel>) -> Seq<LinkModel>
    decreases ls.len(),
{
    if ls.len() == 0 {
        Seq::empty()
    } else {
        internal_links(ls.drop_last()) + if external_dest(ls.last().target) {
            Seq::empty()
        } else {
            seq![ls.last()]
        }
    }
}

/// A link leads to a note: its destination is not a web or mail address.
pub open spec fn leads_to_note() -> spec_fn(LinkModel) -> bool {
    |l: LinkModel| !external_dest(l.target)
}

/// The note links among markdown links are exactly those whose
/// destination is not a web or mail address, in order.
pub proof fn lemma_internal_links_filter(ls: Seq<LinkModel>)
    ensures
        internal_links(ls) == ls.filter(leads_to_note()),
        forall|i: int| 0 <= i < internal_links(ls).len() ==> !external_dest(#[trigger] internal_links(ls)[i].target),
    decreases ls.len(),
{
    if ls.len() > 0 {
        lemma_internal_links_filter(ls.drop_last());
        reveal(Seq::filter);
        assert(ls.filter(leads_to_note()) == {
            let sub = ls.drop_last().filter(leads_to_note());
            if leads_to_note()(ls.last()) {
                sub.push(ls.last())
            } else {
                sub
            }
        });
        if external_dest(ls.last().target) {
            assert(internal_links(ls) =~= internal_links(ls.drop_last()));
        } else {
            assert(internal_links(ls) =~= internal_links(ls.drop_last()).push(ls.last()));
        }
        assert forall|i: int| 0 <= i < internal_links(ls).len() implies !external_dest(
            #[trigger] internal_links(ls)[i].target,
        ) by {
            if i < internal_links(ls.drop_last()).len() {
                assert(internal_links(ls)[i] == internal_links(ls.drop_last())[i]);
            }
        }
    }
}

/// The note links of a text are its wikilinks together with its markdown
/// links whose destination is not a web or mail address: no more, no fewer.
pub proof fn lemma_note_links_content(wikis: Seq<LinkModel>, ls: Seq<LinkModel>)
    ensures
        sort_by_start(wikis + internal_links(ls)).to_multiset() == wikis.to_multiset().add(
            ls.filter(leads_to_note()).to_multiset(),
        ),
{
    lemma_sort_by_start(wikis + internal_links(ls));
    lemma_internal_links_filter(ls);
    vstd::seq_lib::lemma_multiset_commutative(wikis, internal_links(ls));
}

/// Where a link starting at byte `key` goes in `s`: after every link from
/// the end of `s` that starts after it.
pub open spec fn insert_pos(s: Seq<LinkModel>, key: int) -> int
    decreases s.len(),
{
    if s.len() > 0 && s.last().span.0 > key {
        insert_pos(s.drop_last(), key)
    } else {
        s.len() as int
    }
}

/// `ls` sorted by start offset, keeping the order of links that start at the
/// same offset (a stable insertion sort).
pub open spec fn sort_by_start(ls: Seq<LinkModel>) -> Seq<LinkModel>
    decreases ls.len(),
{
    if ls.len() == 0 {
        Seq::empty()
    } else {
        let s = sort_by_start(ls.drop_last());
        s.insert(insert_pos(s, ls.last().span.0), ls.last())
    }
}

/// Sorted by start offset.
pub open spec fn starts_sorted(s: Seq<LinkModel>) -> bool {
    forall|i: int, j: int| 0 <= i <= j < s.len() ==> (#[trigger] s[i]).span.0 <= (#[trigger] s[j]).span.0
}

proof fn lemma_insert_pos(s: Seq<LinkModel>, key: int)
    ensures
        0 <= insert_pos(s, key) <= s.len(),
        forall|k: int| insert_pos(s, key) <= k < s.len() ==> (#[trigger] s[k]).span.0 > key,
        insert_pos(s, key) > 0 ==> s[insert_pos(s, key) - 1].span.0 <= key,
    decreases s.len(),
{
    if s.len() > 0 && s.last().span.0 > key {
        lemma_insert_pos(s.drop_last(), key);
        assert forall|k: int| insert_pos(s, key) <= k < s.len() implies (#[trigger] s[k]).span.0 > key by {
            if k < s.len() - 1 {
                assert(s.drop_last()[k] == s[k]);
            }
        }
    }
}

/// The note links come out sorted by where they start, and they are the
/// links that went in.
pub proof fn lemma_sort_by_start(ls: Seq<LinkModel>)
    ensures
        starts_sorted(sort_by_start(ls)),
        sort_by_start(ls).to_multiset() == ls.to_multiset(),
    decreases ls.len(),
{
    if ls.len() > 0 {
        let rest = ls.drop_last();
        let x = ls.last();
        lemma_sort_by_start(rest);
        let s = sort_by_start(rest);
        let p = insert_pos(s, x.span.0);
        lemma_insert_pos(s, x.span.0);
        let r = s.insert(p, x);
        assert forall|i: int, j: int| 0 <= i <= j < r.len() implies (#[trigger] r[i]).span.0 <= (#[trigger] r[j]).span.0 by {
            if i < p && j < p {
                assert(r[i] == s[i] && r[j] == s[j]);
            } else if i < p && j == p {
                assert(r[i] == s[i]);
                assert(s[i].span.0 <= s[p - 1].span.0);
            } else if i < p {
                assert(r[i] == s[i] && r[j] == s[j - 1]);
            } else if i == p && j > p {
                assert(r[j] == s[j - 1]);
            } else if i > p {
                assert(r[i] == s[i - 1] && r[j] == s[j - 1]);
            }
        }
        vstd::seq_lib::to_multiset_insert(s, p, x);
        assert(r.to_multiset() == s.to_multiset().insert(x));
        assert(ls =~= rest.push(x));
        vstd::seq_lib::to_multiset_build(rest, x);
        assert(ls.to_multiset() == rest.to_multiset().insert(x));
        assert(sort_by_start(ls) == r);
    } else {
        assert(ls =~= Seq::<LinkModel>::empty());
    }
}

fn note_from_wikilink<'a>(w: &Wikilinks<'a>) -> (n: NoteLink<'a>)
    ensures
        n@ == w@,
{
    NoteLink { target: w.target, heading: w.heading, display: w.display, span: w.span }
}

fn note_from_markdown<'a>(m: &MarkdownLink<'a>) -> (n: NoteLink<'a>)
    ensures
        n@ == m@,
{
    NoteLink { target: m.dest, heading: m.heading, display: m.display, span: m.span }
}

/// The wikilinks and the markdown links to notes, together, sorted by start
/// offset; links starting at the same offset keep their order, wikilinks
/// first.
pub fn note_links_from<'a>(wikis: &Vec<Wikilinks<'a>>, md: &Vec<MarkdownLink<'a>>) -> (links: Vec<NoteLink<'a>>)
    ensures
        links@.map_values(|l: NoteLink<'a>| l@) == sort_by_start(
            wikis@.map_values(|w: Wikilinks<'a>| w@) + internal_links(md@.map_values(|m: MarkdownLink<'a>| m@)),
        ),
{
    let ghost wv = wikis@.map_values(|w: Wikilinks<'a>| w@);
    let ghost mv = md@.map_values(|m: MarkdownLink<'a>| m@);
    let mut all: Vec<NoteLink<'a>> = Vec::new();
    let mut i: usize = 0;
    while i < wikis.len()
        invariant
            i <= wikis@.len(),
            wv == wikis@.map_values(|w: Wikilinks<'a>| w@),
            all@.map_values(|l: NoteLink<'a>| l@) == wv.subrange(0, i as int),
        decreases wikis@.len() - i,
    {
        let n = note_from_wikilink(&wikis[i]);
        let ghost before = all@.map_values(|l: NoteLink<'a>| l@);
        assert(wv[i as int] == wikis@[i as int]@);
        assert(n@ == wv[i as int]);
        all.push(n);
        assert(all@.map_values(|l: NoteLink<'a>| l@) =~= before.push(n@));
        assert(wv.subrange(0, i + 1) =~= wv.subrange(0, i as int).push(wv[i as int]));
        i += 1;
    }
    assert(wv.subrange(0, wikis@.len() as int) =~= wv);
    let mut k: usize = 0;
    while k < md.len()
        invariant
            k <= md@.len(),
            mv == md@.map_values(|m: MarkdownLink<'a>| m@),
            all@.map_values(|l: NoteLink<'a>| l@) == wv + internal_links(mv.subrange(0, k as int)),
        decreases md@.len() - k,
    {
        let m = &md[k];
        proof {
            assert(mv.subrange(0, k + 1).drop_last() =~= mv.subrange(0, k as int));
            assert(mv.subrange(0, k + 1).last() == m@);
        }
        let ghost before = all@.map_values(|l: NoteLink<'a>| l@);
        if !m.is_external() {
            let n = note_from_markdown(m);
            all.push(n);
            assert(all@.map_values(|l: NoteLink<'a>| l@) =~= before + seq![m@]);
        } else {
            assert(before + Seq::<LinkModel>::empty() =~= before);
        }
        assert(wv + internal_links(mv.subrange(0, k + 1)) =~= wv + internal_links(mv.subrange(0, k as int))
            + if external_dest(m@.target) {
            Seq::empty()
        } else {
            seq![m@]
        });
        k += 1;
    }
    assert(mv.subrange(0, md@.len() as int) =~= mv);
    let ghost input = all@.map_values(|l: NoteLink<'a>| l@);
    let mut out: Vec<NoteLink<'a>> = Vec::new();
    let mut rest = all;
    let ghost rest0 = rest@;
    let mut taken: usize = 0;
    let total = rest.len();
    assert(input.subrange(0, 0) =~= Seq::<LinkModel>::empty());
    while taken < total
        invariant
            taken <= total,
            total == rest0.len(),
            rest@ == rest0.subrange(taken as int, total as int),
            input == rest0.map_values(|l: NoteLink<'a>| l@),
            out@.map_values(|l: NoteLink<'a>| l@) == sort_by_start(input.subrange(0, taken as int)),
        decreases total - taken,
    {
        let x = rest.remove(0);
        let key = x.span.0;
        let ghost sorted = out@.map_values(|l: NoteLink<'a>| l@);
        let mut j = out.len();
        assert(sorted.subrange(0, j as int) =~= sorted);
        while j > 0 && out[j - 1].span.0 > key
            invariant
                j <= out@.len(),
                sorted == out@.map_values(|l: NoteLink<'a>| l@),
                insert_pos(sorted, key as int) == insert_pos(sorted.subrange(0, j as int), key as int),
            decreases j,
        {
            proof {
                assert(sorted.subrange(0, j as int).drop_last() =~= sorted.subrange(0, j - 1));
            }
            j -= 1;
        }
        proof {
            assert(sorted.subrange(0, 0) =~= Seq::<LinkModel>::empty());
            assert(insert_pos(sorted.subrange(0, j as int), key as int) == j);
            assert(input.subrange(0, taken + 1).drop_last() =~= input.subrange(0, taken as int));
            assert(x == rest0[taken as int]);
        }
        out.insert(j, x);
        assert(out@.map_values(|l: NoteLink<'a>| l@) =~= sorted.insert(j as int, x@));
        taken += 1;
    }
    assert(input.subrange(0, total as int) =~= input);
    out
}

/// The links between notes in `text`: its wikilinks and its markdown links
/// that do not lead to web or mail addresses, sorted by start offset.
pub fn extract_note_links<'a>(text: &'a str) -> (links: Vec<NoteLink<'a>>)
    ensures
        links@.map_values(|l: NoteLink<'a>| l@) == sort_by_start(
            wikilinks_from(text.spec_bytes(), 0) + internal_links(links_of(markdown_events(text@))),
        ),
{
    let wikis = parse_wikilinks(text);
    let md = parse_markdown_links(text);
    note_links_from(&wikis, &md)
}

} // verus!
