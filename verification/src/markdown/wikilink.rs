//! Wikilinks: `[[target]]`, `[[target|display]]`, `[[target#heading]]` and
//! `[[target#heading|display]]`.

use vstd::prelude::*;
use vstd::utf8::*;
use vstd::string::*;
use crate::encoding::{lemma_boundary_iff, substr};
use crate::markdown::chars::{find_char, find_from, trim, trimmed};

verus! {

/// A link between notes: its target, heading and display text as
/// characters, and the byte range of the text that writes it.
pub struct LinkModel {
    pub target: Seq<char>,
    pub heading: Option<Seq<char>>,
    pub display: Seq<char>,
    pub span: (int, int),
}

/// The characters of an optional string.
pub open spec fn opt_chars(s: Option<&str>) -> Option<Seq<char>> {
    match s {
        Some(t) => Some(t@),
        None => None,
    }
}

pub struct Wikilinks<'a> {
    pub target: &'a str,
    pub heading: Option<&'a str>,
    pub display: &'a str,
    pub span: (usize, usize),
}

impl<'a> View for Wikilinks<'a> {
    type V = LinkModel;

    open spec fn view(&self) -> LinkModel {
        LinkModel {
            target: self.target@,
            heading: opt_chars(self.heading),
            display: self.display@,
            span: (self.span.0 as int, self.span.1 as int),
        }
    }
}

/// The first `i` at or after `from` where `b[i]` and `b[i + 1]` are both `x`.
pub open spec fn find_pair(b: Seq<u8>, x: u8, from: int) -> Option<int>
    decreases b.len() - from,
{
    if from < 0 || from + 1 >= b.len() {
        None
    } else if b[from] == x && b[from + 1] == x {
        Some(from)
    } else {
        find_pair(b, x, from + 1)
    }
}

pub proof fn lemma_find_pair(b: Seq<u8>, x: u8, from: int)
    ensures
        find_pair(b, x, from) matches Some(i) ==> from <= i && i + 1 < b.len() && b[i] == x && b[i
            + 1] == x,
    decreases b.len() - from,
{
    if !(from < 0 || from + 1 >= b.len()) && !(b[from] == x && b[from + 1] == x) {
        lemma_find_pair(b, x, from + 1);
    }
}

/// The link written as `[[content]]` over the bytes `span`: the part before
/// the first `|` (all of it when there is none) names the target and, after
/// its first `#`, the heading; the part after the `|` is the display text,
/// which is otherwise the target part. Every piece is trimmed.
pub open spec fn wikilink_model(content: Seq<char>, span: (int, int)) -> LinkModel {
    let link_part = match find_from(content, '|', 0) {
        Some(p) => trimmed(content.subrange(0, p)),
        None => trimmed(content),
    };
    let display = match find_from(content, '|', 0) {
        Some(p) => trimmed(content.subrange(p + 1, content.len() as int)),
        None => link_part,
    };
    match find_from(link_part, '#', 0) {
        Some(h) => LinkModel {
            target: trimmed(link_part.subrange(0, h)),
            heading: Some(trimmed(link_part.subrange(h + 1, link_part.len() as int))),
            display,
            span,
        },
        None => LinkModel { target: link_part, heading: None, display, span },
    }
}

/// The wikilinks of `b` from byte `from` on: each `[[` up to the next `]]`;
/// scanning goes on after the `]]` and stops at a `[[` that is never closed.
pub open spec fn wikilinks_from(b: Seq<u8>, from: int) -> Seq<LinkModel>
    decreases b.len() - from,
{
    if from < 0 {
        Seq::empty()
    } else {
        match find_pair(b, 91, from) {
            None => Seq::empty(),
            Some(o) => match find_pair(b, 93, o + 2) {
                None => Seq::empty(),
                Some(c) => {
                    proof {
                        lemma_find_pair(b, 91, from);
                        lemma_find_pair(b, 93, o + 2);
                    }
                    seq![wikilink_model(decode_utf8(b.subrange(o + 2, c)), (o, c + 2))]
                        + wikilinks_from(b, c + 2)
                },
            },
        }
    }
}

fn find_pair_at(bytes: &[u8], x: u8, from: usize) -> (r: Option<usize>)
    ensures
        r matches Some(i) ==> find_pair(bytes@, x, from as int) == Some(i as int),
        r is None ==> find_pair(bytes@, x, from as int) is None,
{
    let n = bytes.len();
    let mut i = from;
    while i < n && i + 1 < n
        invariant
            from <= i,
            n == bytes@.len(),
            find_pair(bytes@, x, from as int) == find_pair(bytes@, x, i as int),
        decreases n - i,
    {
        if bytes[i] == x && bytes[i + 1] == x {
            return Some(i);
        }
        i += 1;
    }
    None
}

fn wikilink_of<'a>(content: &'a str, open: usize, end: usize) -> (w: Wikilinks<'a>)
    ensures
        w@ == wikilink_model(content@, (open as int, end as int)),
{
    let n = content.unicode_len();
    let (link_part, display) = match find_char(content, '|', 0) {
        Some(p) => (trim(content.substring_char(0, p)), trim(content.substring_char(p + 1, n))),
        None => {
            let t = trim(content);
            (t, t)
        },
    };
    let m = link_part.unicode_len();
    match find_char(link_part, '#', 0) {
        Some(h) => Wikilinks {
            target: trim(link_part.substring_char(0, h)),
            heading: Some(trim(link_part.substring_char(h + 1, m))),
            display,
            span: (open, end),
        },
        None => Wikilinks { target: link_part, heading: None, display, span: (open, end) },
    }
}

/// Each wikilink found from `from` on spans `[[content]]` in the bytes, and
/// its display text is the trimmed text after the first `|` of the content,
/// or, without a `|`, the whole trimmed content (`#heading` included). It
/// has a heading exactly when that link part holds a `#`; with neither `|`
/// nor `#` its target is the whole trimmed content.
pub proof fn lemma_wikilink_parts(b: Seq<u8>, from: int, k: int)
    requires
        0 <= from,
        0 <= k < wikilinks_from(b, from).len(),
    ensures
        ({
            let l = wikilinks_from(b, from)[k];
            let s = l.span.0;
            let e = l.span.1;
            let c = decode_utf8(b.subrange(s + 2, e - 2));
            &&& from <= s
            &&& s + 4 <= e <= b.len()
            &&& b[s] == 91 && b[s + 1] == 91 && b[e - 2] == 93 && b[e - 1] == 93
            &&& find_from(c, '|', 0) is None ==> {
                &&& l.display == trimmed(c)
                &&& (l.heading is Some <==> find_from(trimmed(c), '#', 0) is Some)
                &&& find_from(trimmed(c), '#', 0) is None ==> l.target == trimmed(c)
            }
            &&& find_from(c, '|', 0) matches Some(p) ==> l.display == trimmed(c.subrange(p + 1, c.len() as int))
        }),
    decreases b.len() - from, k,
{
    let o = find_pair(b, 91, from)->Some_0;
    let c = find_pair(b, 93, o + 2)->Some_0;
    lemma_find_pair(b, 91, from);
    lemma_find_pair(b, 93, o + 2);
    if k > 0 {
        lemma_wikilink_parts(b, c + 2, k - 1);
    }
}

/// The wikilinks of `text`, in order.
pub fn parse_wikilinks<'a>(text: &'a str) -> (links: Vec<Wikilinks<'a>>)
    ensures
        links@.map_values(|w: Wikilinks<'a>| w@) == wikilinks_from(text.spec_bytes(), 0),
{
    let bytes = text.as_bytes();
    let ghost b = bytes@;
    proof {
        encode_utf8_valid_utf8(text@);
    }
    let n = bytes.len();
    let mut links: Vec<Wikilinks<'a>> = Vec::new();
    let mut start_search: usize = 0;
    loop
        invariant
            b == bytes@,
            n == b.len(),
            b == text.spec_bytes(),
            valid_utf8(b),
            start_search <= b.len(),
            links@.map_values(|w: Wikilinks<'a>| w@) + wikilinks_from(b, start_search as int)
                == wikilinks_from(b, 0),
        ensures
            links@.map_values(|w: Wikilinks<'a>| w@) == wikilinks_from(b, 0),
        decreases b.len() - start_search,
    {
        let open = match find_pair_at(bytes, 91, start_search) {
            Some(o) => o,
            None => {
                proof {
                    lemma_no_more(links@.map_values(|w: Wikilinks<'a>| w@), wikilinks_from(b, start_search as int));
                }
                break;
            },
        };
        proof {
            lemma_find_pair(b, 91, start_search as int);
        }
        let content_start = open + 2;
        let close = match find_pair_at(bytes, 93, content_start) {
            Some(c) => c,
            None => {
                proof {
                    lemma_no_more(links@.map_values(|w: Wikilinks<'a>| w@), wikilinks_from(b, start_search as int));
                }
                break;
            },
        };
        proof {
            lemma_find_pair(b, 93, content_start as int);
            lemma_boundary_iff(b, open + 1);
            crate::encoding::lemma_ascii_next_boundary(b, open + 1);
            lemma_boundary_iff(b, close as int);
            lemma_boundary_iff(b, close + 1);
            crate::encoding::lemma_ascii_next_boundary(b, close + 1);
        }
        let content = substr(text, content_start, close);
        proof {
            encode_utf8_decode_utf8(content@);
        }
        let link = wikilink_of(content, open, close + 2);
        let ghost before = links@.map_values(|w: Wikilinks<'a>| w@);
        links.push(link);
        assert(links@.map_values(|w: Wikilinks<'a>| w@) =~= before.push(link@));
        assert(wikilinks_from(b, start_search as int) == seq![link@] + wikilinks_from(b, close + 2));
        assert(before.push(link@) + wikilinks_from(b, close + 2) =~= before + (seq![link@]
            + wikilinks_from(b, close + 2)));
        start_search = close + 2;
    }
    links
}

proof fn lemma_no_more(done: Seq<LinkModel>, rest: Seq<LinkModel>)
    requires
        rest.len() == 0,
    ensures
        done + rest == done,
{
    assert(done + rest =~= done);
}

} // verus!
