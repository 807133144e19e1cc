//! Frontmatter: the block between a leading `---` line and the next line
//! that starts with `---`, and the note aliases it lists, inline
//! (`aliases: [a, b]`) or as a list (`aliases:` then `- a` lines).

use vstd::prelude::*;
use vstd::string::*;
use crate::markdown::chars::{
    drop_lead, drop_trail, find_char, find_from, has_prefix, is_ws, lemma_find_from, starts_with,
    strip_char, stripped_of, trim, trim_start, trimmed, trimmed_start,
};

verus! {

#[derive(Debug, PartialEq, Default, Clone)]
pub struct Frontmatter {
    pub aliases: Vec<String>,
}

/// The characters of each string.
pub open spec fn string_views(v: Seq<String>) -> Seq<Seq<char>> {
    v.map_values(|s: String| s@)
}

impl View for Frontmatter {
    type V = Seq<Seq<char>>;

    open spec fn view(&self) -> Seq<Seq<char>> {
        string_views(self.aliases@)
    }
}

/// Where the line starting at `p` ends: its line feed, or the end of `s`.
pub open spec fn line_end(s: Seq<char>, p: int) -> int {
    match find_from(s, '\n', p) {
        Some(i) => i,
        None => s.len() as int,
    }
}

/// The line starting at `p`, as `str::lines` gives it: without its line
/// feed, and without a carriage return right before that line feed.
pub open spec fn line_at(s: Seq<char>, p: int) -> Seq<char> {
    let e = line_end(s, p);
    let l = s.subrange(p, e);
    if e < s.len() && l.len() > 0 && l.last() == '\r' {
        l.drop_last()
    } else {
        l
    }
}

pub proof fn lemma_line_end(s: Seq<char>, p: int)
    requires
        0 <= p <= s.len(),
    ensures
        p <= line_end(s, p) <= s.len(),
        line_end(s, p) < s.len() ==> s[line_end(s, p)] == '\n',
{
    lemma_find_from(s, '\n', p);
}

/// The lines of `s` from `p` on, as `str::lines` splits them.
pub open spec fn lines_from(s: Seq<char>, p: int) -> Seq<Seq<char>>
    decreases s.len() - p,
{
    if p < 0 || p >= s.len() {
        Seq::empty()
    } else {
        proof {
            lemma_line_end(s, p);
        }
        seq![line_at(s, p)] + if line_end(s, p) < s.len() {
            lines_from(s, line_end(s, p) + 1)
        } else {
            Seq::empty()
        }
    }
}

/// The start of the first line from `p` on whose trimmed text starts with
/// `---`.
pub open spec fn fence_from(s: Seq<char>, p: int) -> Option<int>
    decreases s.len() - p,
{
    if p < 0 || p >= s.len() {
        None
    } else if has_prefix(trimmed(line_at(s, p)), "---"@) {
        Some(p)
    } else {
        proof {
            lemma_line_end(s, p);
        }
        if line_end(s, p) < s.len() {
            fence_from(s, line_end(s, p) + 1)
        } else {
            None
        }
    }
}

/// Without a leading byte order mark.
pub open spec fn without_bom(s: Seq<char>) -> Seq<char> {
    if s.len() > 0 && s[0] == '\u{feff}' {
        s.drop_first()
    } else {
        s
    }
}

/// The frontmatter block of a text: after a byte order mark and leading
/// whitespace the text starts with `---` and nothing but whitespace up to
/// the end of that line; the block is the trimmed text from the next line up
/// to the first line whose trimmed text starts with `---`.
pub open spec fn frontmatter_block(text: Seq<char>) -> Option<Seq<char>> {
    let t = trimmed_start(without_bom(text));
    if !has_prefix(t, "---"@) {
        None
    } else {
        let rest = t.subrange(3, t.len() as int);
        match find_from(rest, '\n', 0) {
            None => None,
            Some(e) => if trimmed(rest.subrange(0, e)).len() != 0 {
                None
            } else {
                let body = rest.subrange(e + 1, rest.len() as int);
                match fence_from(body, 0) {
                    Some(f) => Some(trimmed(body.subrange(0, f))),
                    None => None,
                }
            },
        }
    }
}

/// Some line of `ls` starts with `---` once trimmed.
pub open spec fn has_fence_line(ls: Seq<Seq<char>>) -> bool {
    exists|k: int| 0 <= k < ls.len() && has_prefix(trimmed(#[trigger] ls[k]), "---"@)
}

/// A text opens frontmatter: after a byte order mark and leading whitespace
/// it starts with `---`, the rest of that first line is blank and ends with
/// a line feed, and some later line starts with `---` once trimmed.
pub open spec fn opens_frontmatter(text: Seq<char>) -> bool {
    let t = trimmed_start(without_bom(text));
    let rest = t.subrange(3, t.len() as int);
    &&& has_prefix(t, "---"@)
    &&& find_from(rest, '\n', 0) matches Some(e) && trimmed(rest.subrange(0, e)).len() == 0 && has_fence_line(
        lines_from(rest.subrange(e + 1, rest.len() as int), 0),
    )
}

proof fn lemma_fence_from_lines(s: Seq<char>, p: int)
    requires
        0 <= p,
    ensures
        fence_from(s, p) is Some <==> has_fence_line(lines_from(s, p)),
    decreases s.len() - p,
{
    if p < s.len() {
        lemma_line_end(s, p);
        let ls = lines_from(s, p);
        let rest = if line_end(s, p) < s.len() {
            lines_from(s, line_end(s, p) + 1)
        } else {
            Seq::empty()
        };
        assert(ls == seq![line_at(s, p)] + rest);
        if line_end(s, p) < s.len() {
            lemma_fence_from_lines(s, line_end(s, p) + 1);
        }
        if has_prefix(trimmed(line_at(s, p)), "---"@) {
            assert(ls[0] == line_at(s, p));
        } else {
            if has_fence_line(ls) {
                let k = choose|k: int| 0 <= k < ls.len() && has_prefix(trimmed(#[trigger] ls[k]), "---"@);
                assert(k != 0);
                assert(ls[k] == rest[k - 1]);
            }
            if has_fence_line(rest) {
                let k = choose|k: int| 0 <= k < rest.len() && has_prefix(trimmed(#[trigger] rest[k]), "---"@);
                assert(ls[k + 1] == rest[k]);
            }
        }
    } else {
        assert(lines_from(s, p).len() == 0);
    }
}

/// A text has a frontmatter block exactly when it opens frontmatter.
pub proof fn lemma_frontmatter_condition(text: Seq<char>)
    ensures
        frontmatter_block(text) is Some <==> opens_frontmatter(text),
{
    let t = trimmed_start(without_bom(text));
    if has_prefix(t, "---"@) {
        let rest = t.subrange(3, t.len() as int);
        if let Some(e) = find_from(rest, '\n', 0) {
            lemma_find_from(rest, '\n', 0);
            lemma_fence_from_lines(rest.subrange(e + 1, rest.len() as int), 0);
        }
    }
}

/// Where a YAML comment starts: the first `#` outside single and double
/// quotes, scanning from `i` with the given quotes open.
pub open spec fn comment_from(s: Seq<char>, i: int, single: bool, double: bool) -> Option<int>
    decreases s.len() - i,
{
    if i < 0 || i >= s.len() {
        None
    } else if s[i] == '\'' && !double {
        comment_from(s, i + 1, !single, double)
    } else if s[i] == '"' && !single {
        comment_from(s, i + 1, single, !double)
    } else if s[i] == '#' && !single && !double {
        Some(i)
    } else {
        comment_from(s, i + 1, single, double)
    }
}

/// The line without its trailing YAML comment.
pub open spec fn without_comment(s: Seq<char>) -> Seq<char> {
    match comment_from(s, 0, false, false) {
        Some(i) => s.subrange(0, i),
        None => s,
    }
}

/// An alias as written: trimmed, then without surrounding double quotes,
/// then without surrounding single quotes.
pub open spec fn cleaned(item: Seq<char>) -> Seq<char> {
    stripped_of(stripped_of(trimmed(item), '"'), '\'')
}

/// The non-empty cleaned pieces of `s` between commas, from `p` on.
pub open spec fn inline_aliases(s: Seq<char>, p: int) -> Seq<Seq<char>>
    decreases s.len() + 1 - p,
{
    if p < 0 || p > s.len() {
        Seq::empty()
    } else {
        let (piece, next) = match find_from(s, ',', p) {
            Some(i) => (s.subrange(p, i), i + 1),
            None => (s.subrange(p, s.len() as int), s.len() as int + 1),
        };
        proof {
            lemma_find_from(s, ',', p);
        }
        (if cleaned(piece).len() > 0 {
            seq![cleaned(piece)]
        } else {
            Seq::empty()
        }) + inline_aliases(s, next)
    }
}

/// One frontmatter line read, with the aliases so far and whether an
/// `aliases:` list is open: `aliases: [..]` adds its items and closes the
/// list, a bare `aliases:` opens it, and inside the list a `- ` line adds its
/// item while any other non-empty line closes the list.
pub open spec fn alias_step(st: (Seq<Seq<char>>, bool), line: Seq<char>) -> (Seq<Seq<char>>, bool) {
    let t = trimmed(without_comment(line));
    if has_prefix(t, "aliases:"@) {
        let rest = trimmed(t.subrange(8, t.len() as int));
        if rest.len() > 0 && rest[0] == '[' && rest.last() == ']' {
            (st.0 + inline_aliases(rest.subrange(1, rest.len() - 1), 0), false)
        } else if rest.len() == 0 {
            (st.0, true)
        } else {
            st
        }
    } else if st.1 {
        if has_prefix(t, "- "@) {
            let c = cleaned(t.subrange(2, t.len() as int));
            (if c.len() > 0 {
                st.0.push(c)
            } else {
                st.0
            }, true)
        } else if t.len() > 0 {
            (st.0, false)
        } else {
            st
        }
    } else {
        st
    }
}

/// The state after reading the lines `ls` in order.
pub open spec fn alias_scan(ls: Seq<Seq<char>>) -> (Seq<Seq<char>>, bool)
    decreases ls.len(),
{
    if ls.len() == 0 {
        (Seq::empty(), false)
    } else {
        alias_step(alias_scan(ls.drop_last()), ls.last())
    }
}

/// The aliases a frontmatter block lists.
pub open spec fn block_aliases(block: Seq<char>) -> Seq<Seq<char>> {
    alias_scan(lines_from(block, 0)).0
}

fn line_end_at(s: &str, p: usize) -> (e: usize)
    requires
        p <= s@.len(),
    ensures
        e == line_end(s@, p as int),
        p <= e <= s@.len(),
        e < s@.len() ==> s@[e as int] == '\n',
{
    proof {
        lemma_line_end(s@, p as int);
    }
    match find_char(s, '\n', p) {
        Some(i) => i,
        None => s.unicode_len(),
    }
}

fn line_at_exec(s: &str, p: usize) -> (l: &str)
    requires
        p <= s@.len(),
    ensures
        l@ == line_at(s@, p as int),
{
    let n = s.unicode_len();
    let e = line_end_at(s, p);
    if e < n && e > p && s.get_char(e - 1) == '\r' {
        assert(s@.subrange(p as int, e as int).last() == s@[e - 1]);
        assert(s@.subrange(p as int, e as int).drop_last() =~= s@.subrange(p as int, e - 1));
        s.substring_char(p, e - 1)
    } else {
        s.substring_char(p, e)
    }
}

fn fence_start(body: &str) -> (r: Option<usize>)
    ensures
        r matches Some(f) ==> fence_from(body@, 0) == Some(f as int) && f <= body@.len(),
        r is None ==> fence_from(body@, 0) is None,
{
    let n = body.unicode_len();
    let mut p: usize = 0;
    while p < n
        invariant
            p <= n,
            n == body@.len(),
            fence_from(body@, 0) == fence_from(body@, p as int),
        decreases n - p,
    {
        let line = line_at_exec(body, p);
        if starts_with(trim(line), "---") {
            return Some(p);
        }
        let e = line_end_at(body, p);
        if e >= n {
            return None;
        }
        p = e + 1;
    }
    None
}

/// The frontmatter block of `text`, when it has one.
fn extract_frontmatter_block(text: &str) -> (r: Option<&str>)
    ensures
        r matches Some(b) ==> frontmatter_block(text@) == Some(b@),
        r is None ==> frontmatter_block(text@) is None,
{
    let n = text.unicode_len();
    let unmarked = if n > 0 && text.get_char(0) == '\u{feff}' {
        text.substring_char(1, n)
    } else {
        text.substring_char(0, n)
    };
    assert(unmarked@ == without_bom(text@));
    let t = trim_start(unmarked);
    if !starts_with(t, "---") {
        return None;
    }
    proof {
        reveal_strlit("---");
    }
    let m = t.unicode_len();
    let rest = t.substring_char(3, m);
    let first_line_end = match find_char(rest, '\n', 0) {
        Some(e) => e,
        None => {
            return None;
        },
    };
    let k = rest.unicode_len();
    if trim(rest.substring_char(0, first_line_end)).unicode_len() != 0 {
        return None;
    }
    let body = rest.substring_char(first_line_end + 1, k);
    match fence_start(body) {
        Some(f) => Some(trim(body.substring_char(0, f))),
        None => None,
    }
}

/// The line without its trailing YAML comment.
fn strip_yaml_comment(s: &str) -> (r: &str)
    ensures
        r@ == without_comment(s@),
{
    let n = s.unicode_len();
    let mut in_single = false;
    let mut in_double = false;
    let mut i: usize = 0;
    while i < n
        invariant
            i <= n,
            n == s@.len(),
            comment_from(s@, 0, false, false) == comment_from(s@, i as int, in_single, in_double),
        decreases n - i,
    {
        let c = s.get_char(i);
        if c == '\'' && !in_double {
            in_single = !in_single;
        } else if c == '"' && !in_single {
            in_double = !in_double;
        } else if c == '#' && !in_single && !in_double {
            return s.substring_char(0, i);
        }
        i += 1;
    }
    s
}

fn clean_item(item: &str) -> (r: &str)
    ensures
        r@ == cleaned(item@),
{
    strip_char(strip_char(trim(item), '"'), '\'')
}

/// Adds the cleaned non-empty comma-separated items of `inner`.
fn push_inline_aliases(aliases: &mut Vec<String>, inner: &str)
    ensures
        string_views(final(aliases)@) == string_views(old(aliases)@) + inline_aliases(inner@, 0),
{
    let n = inner.unicode_len();
    let ghost start = string_views(aliases@);
    let mut p: usize = 0;
    loop
        invariant_except_break
            p <= n,
            n == inner@.len(),
            string_views(aliases@) + inline_aliases(inner@, p as int) == start + inline_aliases(inner@, 0),
        ensures
            string_views(aliases@) == start + inline_aliases(inner@, 0),
        decreases n + 1 - p,
    {
        let found = find_char(inner, ',', p);
        let piece = match found {
            Some(i) => inner.substring_char(p, i),
            None => inner.substring_char(p, n),
        };
        let c = clean_item(piece);
        let ghost before = string_views(aliases@);
        let ghost next: int = match found {
            Some(i) => i + 1,
            None => n + 1,
        };
        if c.unicode_len() > 0 {
            aliases.push(c.to_owned());
            assert(string_views(aliases@) =~= before + seq![c@]);
        } else {
            assert(string_views(aliases@) =~= before + Seq::<Seq<char>>::empty());
        }
        assert(inline_aliases(inner@, p as int) == (if c@.len() > 0 {
            seq![c@]
        } else {
            Seq::<Seq<char>>::empty()
        }) + inline_aliases(inner@, next));
        match found {
            Some(i) => {
                p = i + 1;
            },
            None => {
                assert(inline_aliases(inner@, next) =~= Seq::<Seq<char>>::empty());
                break;
            },
        }
    }
}

/// Reads one frontmatter line.
fn read_alias_line(aliases: &mut Vec<String>, in_block: bool, line: &str) -> (open: bool)
    ensures
        (string_views(final(aliases)@), open) == alias_step((string_views(old(aliases)@), in_block), line@),
{
    proof {
        reveal_strlit("aliases:");
        reveal_strlit("- ");
    }
    let t = trim(strip_yaml_comment(line));
    let m = t.unicode_len();
    if starts_with(t, "aliases:") {
        let rest = trim(t.substring_char(8, m));
        let k = rest.unicode_len();
        if k > 0 && rest.get_char(0) == '[' && rest.get_char(k - 1) == ']' {
            push_inline_aliases(aliases, rest.substring_char(1, k - 1));
            false
        } else if k == 0 {
            true
        } else {
            in_block
        }
    } else if in_block {
        if starts_with(t, "- ") {
            let c = clean_item(t.substring_char(2, m));
            if c.unicode_len() > 0 {
                let ghost before = string_views(aliases@);
                aliases.push(c.to_owned());
                assert(string_views(aliases@) =~= before.push(c@));
            }
            true
        } else if m > 0 {
            false
        } else {
            in_block
        }
    } else {
        in_block
    }
}

/// The line `aliases: [item]`.
pub open spec fn inline_line(item: Seq<char>) -> Seq<char> {
    "aliases: ["@ + item + "]"@
}

/// The line `- item`.
pub open spec fn dash_line(item: Seq<char>) -> Seq<char> {
    "- "@ + item
}

/// One list item as these laws take it: not empty, not starting or ending
/// with whitespace, and without commas, comment marks or line feeds.
pub open spec fn plain_item(x: Seq<char>) -> bool {
    &&& x.len() > 0
    &&& !is_ws(x[0])
    &&& !is_ws(x.last())
    &&& forall|i: int| 0 <= i < x.len() ==> #[trigger] x[i] != ',' && x[i] != '#' && x[i] != '\n'
}

proof fn lemma_no_comment(s: Seq<char>, i: int, single: bool, double: bool)
    requires
        forall|j: int| 0 <= j < s.len() ==> #[trigger] s[j] != '#',
    ensures
        comment_from(s, i, single, double) is None,
    decreases s.len() - i,
{
    if 0 <= i < s.len() {
        if s[i] == '\'' && !double {
            lemma_no_comment(s, i + 1, !single, double);
        } else if s[i] == '"' && !single {
            lemma_no_comment(s, i + 1, single, !double);
        } else {
            lemma_no_comment(s, i + 1, single, double);
        }
    }
}

proof fn lemma_trimmed_plain(s: Seq<char>)
    requires
        s.len() > 0,
        !is_ws(s[0]),
        !is_ws(s.last()),
    ensures
        trimmed(s) == s,
{
}

proof fn lemma_no_comma(s: Seq<char>)
    requires
        forall|j: int| 0 <= j < s.len() ==> #[trigger] s[j] != ',',
    ensures
        inline_aliases(s, 0) == (if cleaned(s).len() > 0 {
            seq![cleaned(s)]
        } else {
            Seq::<Seq<char>>::empty()
        }),
{
    lemma_find_from(s, ',', 0);
    assert(s.subrange(0, s.len() as int) =~= s);
    assert(inline_aliases(s, s.len() as int + 1) == Seq::<Seq<char>>::empty());
    assert(inline_aliases(s, 0) == (if cleaned(s).len() > 0 {
        seq![cleaned(s)]
    } else {
        Seq::<Seq<char>>::empty()
    }) + inline_aliases(s, s.len() as int + 1));
}

proof fn lemma_inline_line(st: (Seq<Seq<char>>, bool), x: Seq<char>)
    requires
        plain_item(x),
    ensures
        alias_step(st, inline_line(x)).0 == st.0 + (if cleaned(x).len() > 0 {
            seq![cleaned(x)]
        } else {
            Seq::<Seq<char>>::empty()
        }),
{
    reveal_strlit("aliases: [");
    reveal_strlit("]");
    reveal_strlit("[");
    reveal_strlit("aliases:");
    let il = inline_line(x);
    assert forall|j: int| 0 <= j < il.len() implies #[trigger] il[j] != '#' by {
        if 10 <= j < 10 + x.len() {
            assert(il[j] == x[j - 10]);
        }
    }
    lemma_no_comment(il, 0, false, false);
    assert(il.last() == ']');
    lemma_trimmed_plain(il);
    let rest = "["@ + x + "]"@;
    assert("aliases: ["@ =~= "aliases:"@ + seq![' '] + "["@);
    assert(il =~= "aliases:"@ + (seq![' '] + rest));
    assert(il.subrange(0, 8) =~= "aliases:"@);
    let tail = il.subrange(8, il.len() as int);
    assert(tail =~= seq![' '] + rest);
    assert(tail.drop_first() =~= rest);
    assert(rest[0] == '[');
    assert(rest.last() == ']');
    assert(trimmed(tail) == rest) by {
        assert(drop_lead(tail, true, ' ') == drop_lead(rest, true, ' '));
        lemma_trimmed_plain(rest);
    }
    assert(rest.subrange(1, rest.len() - 1) =~= x);
    lemma_no_comma(x);
}

proof fn lemma_dash_line(st: (Seq<Seq<char>>, bool), x: Seq<char>)
    requires
        plain_item(x),
    ensures
        alias_step((st.0, true), dash_line(x)).0 == st.0 + (if cleaned(x).len() > 0 {
            seq![cleaned(x)]
        } else {
            Seq::<Seq<char>>::empty()
        }),
{
    reveal_strlit("- ");
    reveal_strlit("aliases:");
    let dl = dash_line(x);
    assert forall|j: int| 0 <= j < dl.len() implies #[trigger] dl[j] != '#' by {
        if 2 <= j {
            assert(dl[j] == x[j - 2]);
        }
    }
    lemma_no_comment(dl, 0, false, false);
    assert(dl.last() == x.last());
    lemma_trimmed_plain(dl);
    assert(!has_prefix(dl, "aliases:"@)) by {
        assert(dl[0] == '-');
        assert("aliases:"@[0] == 'a');
    }
    assert(dl.subrange(0, 2) =~= "- "@);
    assert(dl.subrange(2, dl.len() as int) =~= x);
    if cleaned(x).len() > 0 {
        assert(st.0.push(cleaned(x)) =~= st.0 + seq![cleaned(x)]);
    } else {
        assert(st.0 + Seq::<Seq<char>>::empty() =~= st.0);
    }
}

/// An item given in an inline list and the same item given as a `- item`
/// line of a list are read alike: both add the same aliases.
pub proof fn lemma_inline_and_dash_agree(st: (Seq<Seq<char>>, bool), x: Seq<char>)
    requires
        plain_item(x),
    ensures
        alias_step(st, inline_line(x)).0 == alias_step((st.0, true), dash_line(x)).0,
{
    lemma_inline_line(st, x);
    lemma_dash_line(st, x);
}

proof fn lemma_clean_quoted(x: Seq<char>, q: Seq<char>)
    requires
        plain_item(x),
        forall|i: int| 0 <= i < x.len() ==> #[trigger] x[i] != '"' && x[i] != '\'',
        q == seq!['"'] || q == seq!['\''] || q.len() == 0,
    ensures
        cleaned(q + x + q) == x,
{
    let item = q + x + q;
    assert(x[0] != '"' && x[0] != '\'');
    assert(x.last() != '"' && x.last() != '\'');
    assert(drop_lead(x, false, '"') == x);
    assert(drop_trail(x, false, '"') == x);
    assert(drop_lead(x, false, '\'') == x);
    assert(drop_trail(x, false, '\'') == x);
    if q.len() > 0 {
        let c = q[0];
        assert(item[0] == c && item.last() == c);
        lemma_trimmed_plain(item);
        assert(item.drop_first() =~= x + q);
        assert((x + q)[0] == x[0]);
        assert((x + q).drop_last() =~= x);
        assert((x + q).last() == c);
        if c == '"' {
            assert(drop_lead(item, false, '"') == drop_lead(x + q, false, '"'));
            assert(drop_lead(x + q, false, '"') == x + q);
            assert(drop_trail(x + q, false, '"') == drop_trail(x, false, '"'));
            assert(stripped_of(item, '"') == x);
        } else {
            assert(drop_lead(item, false, '"') == item);
            assert(drop_trail(item, false, '"') == item);
            assert(stripped_of(item, '"') == item);
            assert(drop_lead(item, false, '\'') == drop_lead(x + q, false, '\''));
            assert(drop_lead(x + q, false, '\'') == x + q);
            assert(drop_trail(x + q, false, '\'') == drop_trail(x, false, '\''));
        }
    } else {
        assert(item =~= x);
        lemma_trimmed_plain(x);
    }
}

/// Quotes around an inline list item are taken off: `aliases: ["x"]`,
/// `aliases: ['x']` and `aliases: [x]` all add the alias `x`, for an item
/// `x` without quotes.
pub proof fn lemma_inline_quotes_stripped(st: (Seq<Seq<char>>, bool), x: Seq<char>, q: Seq<char>)
    requires
        plain_item(x),
        forall|i: int| 0 <= i < x.len() ==> #[trigger] x[i] != '"' && x[i] != '\'',
        q == seq!['"'] || q == seq!['\''] || q.len() == 0,
    ensures
        alias_step(st, inline_line(q + x + q)).0 == st.0.push(x),
{
    let item = q + x + q;
    assert(item.len() > 0 && item[0] == (if q.len() > 0 { q[0] } else { x[0] }));
    assert(item.last() == (if q.len() > 0 { q[0] } else { x.last() }));
    assert forall|i: int| 0 <= i < item.len() implies #[trigger] item[i] != ',' && item[i] != '#' && item[i] != '\n' by {
        if q.len() <= i < q.len() + x.len() {
            assert(item[i] == x[i - q.len()]);
        }
    }
    lemma_inline_line(st, item);
    lemma_clean_quoted(x, q);
    assert(st.0 + seq![x] =~= st.0.push(x));
}

proof fn lemma_one_line(s: Seq<char>)
    requires
        s.len() > 0,
        forall|i: int| 0 <= i < s.len() ==> #[trigger] s[i] != '\n',
    ensures
        lines_from(s, 0) == seq![s],
{
    lemma_find_from(s, '\n', 0);
    assert(line_end(s, 0) == s.len());
    assert(s.subrange(0, s.len() as int) =~= s);
}

proof fn lemma_two_lines(a: Seq<char>, b: Seq<char>)
    requires
        a.len() > 0,
        b.len() > 0,
        a.last() != '\r',
        forall|i: int| 0 <= i < a.len() ==> #[trigger] a[i] != '\n',
        forall|i: int| 0 <= i < b.len() ==> #[trigger] b[i] != '\n',
    ensures
        lines_from(a + seq!['\n'] + b, 0) == seq![a, b],
{
    let s = a + seq!['\n'] + b;
    let p = a.len() as int;
    assert forall|i: int| 0 <= i < p implies #[trigger] s[i] != '\n' by {
        assert(s[i] == a[i]);
    }
    assert(s[p] == '\n');
    lemma_find_from(s, '\n', 0);
    assert(find_from(s, '\n', 0) == Some(p)) by {
        lemma_find_first(s, '\n', 0, p);
    }
    assert(s.subrange(0, p) =~= a);
    assert(line_at(s, 0) == a);
    let q = p + 1;
    assert forall|i: int| q <= i < s.len() implies #[trigger] s[i] != '\n' by {
        assert(s[i] == b[i - q]);
    }
    lemma_find_from(s, '\n', q);
    assert(line_end(s, q) == s.len());
    assert(s.subrange(q, s.len() as int) =~= b);
    assert(line_at(s, q) == b);
    assert(lines_from(s, q) == seq![b]) by {
        assert(lines_from(s, q) == seq![line_at(s, q)] + Seq::<Seq<char>>::empty());
    }
    assert(seq![a] + seq![b] =~= seq![a, b]);
}

proof fn lemma_find_first(s: Seq<char>, x: char, from: int, p: int)
    requires
        0 <= from <= p < s.len(),
        s[p] == x,
        forall|i: int| from <= i < p ==> #[trigger] s[i] != x,
    ensures
        find_from(s, x, from) == Some(p),
    decreases p - from,
{
    if from < p {
        lemma_find_first(s, x, from + 1, p);
    }
}

/// A frontmatter block holding `aliases: ["x"]`, `aliases: ['x']` or
/// `aliases: [x]` lists the one alias `x`, for an item `x` without quotes.
pub proof fn lemma_block_inline_alias(x: Seq<char>, q: Seq<char>)
    requires
        plain_item(x),
        forall|i: int| 0 <= i < x.len() ==> #[trigger] x[i] != '"' && x[i] != '\'',
        q == seq!['"'] || q == seq!['\''] || q.len() == 0,
    ensures
        block_aliases(inline_line(q + x + q)) == seq![x],
{
    reveal_strlit("aliases: [");
    reveal_strlit("]");
    let item = q + x + q;
    let l = inline_line(item);
    assert forall|i: int| 0 <= i < l.len() implies #[trigger] l[i] != '\n' by {
        if 10 <= i < 10 + item.len() {
            assert(l[i] == item[i - 10]);
            if q.len() <= i - 10 < q.len() + x.len() {
                assert(item[i - 10] == x[i - 10 - q.len()]);
            }
        }
    }
    lemma_one_line(l);
    assert(seq![l].drop_last() =~= Seq::<Seq<char>>::empty());
    lemma_inline_quotes_stripped((Seq::empty(), false), x, q);
    assert(alias_scan(Seq::<Seq<char>>::empty()) == (Seq::<Seq<char>>::empty(), false));
    assert(alias_scan(seq![l]) == alias_step((Seq::<Seq<char>>::empty(), false), l));
    assert(Seq::<Seq<char>>::empty().push(x) =~= seq![x]);
    assert(block_aliases(l) == alias_scan(lines_from(l, 0)).0);
}

/// A block listing an item inline (`aliases: [x]`) and a block listing it
/// under `aliases:` as `- x` give the same aliases.
pub proof fn lemma_block_inline_and_dash_agree(x: Seq<char>)
    requires
        plain_item(x),
    ensures
        block_aliases(inline_line(x)) == block_aliases("aliases:"@ + seq!['\n'] + dash_line(x)),
{
    reveal_strlit("aliases: [");
    reveal_strlit("]");
    reveal_strlit("aliases:");
    reveal_strlit("- ");
    let l = inline_line(x);
    assert forall|i: int| 0 <= i < l.len() implies #[trigger] l[i] != '\n' by {
        if 10 <= i < 10 + x.len() {
            assert(l[i] == x[i - 10]);
        }
    }
    lemma_one_line(l);
    assert(seq![l].drop_last() =~= Seq::<Seq<char>>::empty());
    let d = dash_line(x);
    assert forall|i: int| 0 <= i < d.len() implies #[trigger] d[i] != '\n' by {
        if 2 <= i {
            assert(d[i] == x[i - 2]);
        }
    }
    assert forall|i: int| 0 <= i < "aliases:"@.len() implies #[trigger] "aliases:"@[i] != '\n' by {}
    lemma_two_lines("aliases:"@, d);
    let ls = seq!["aliases:"@, d];
    assert(ls.drop_last() =~= seq!["aliases:"@]);
    assert(seq!["aliases:"@].drop_last() =~= Seq::<Seq<char>>::empty());
    // the `aliases:` line opens a list
    let h = "aliases:"@;
    assert forall|j: int| 0 <= j < h.len() implies #[trigger] h[j] != '#' by {}
    lemma_no_comment(h, 0, false, false);
    lemma_trimmed_plain(h);
    assert(h.subrange(0, 8) =~= h);
    assert(h.subrange(8, h.len() as int) =~= Seq::<char>::empty());
    assert(alias_step((Seq::empty(), false), h) == (Seq::<Seq<char>>::empty(), true));
    lemma_inline_line((Seq::empty(), false), x);
    lemma_dash_line((Seq::empty(), false), x);
    let e = Seq::<Seq<char>>::empty();
    assert(alias_scan(e) == (e, false));
    assert(alias_scan(seq![l]) == alias_step((e, false), l));
    assert(alias_scan(seq![h]) == alias_step((e, false), h));
    assert(alias_scan(ls) == alias_step(alias_scan(seq![h]), d));
    assert(block_aliases(l) == alias_scan(lines_from(l, 0)).0);
    assert(block_aliases(h + seq!['\n'] + d) == alias_scan(lines_from(h + seq!['\n'] + d, 0)).0);
}

/// Not empty, and neither starting nor ending with a single quote.
pub open spec fn unquoted_alias(a: Seq<char>) -> bool {
    &&& a.len() > 0
    &&& a[0] != '\''
    &&& a.last() != '\''
}

proof fn lemma_drop_lead_first(s: Seq<char>, x: char)
    ensures
        drop_lead(s, false, x).len() > 0 ==> drop_lead(s, false, x)[0] != x,
    decreases s.len(),
{
    if s.len() > 0 && s[0] == x {
        lemma_drop_lead_first(s.drop_first(), x);
    }
}

proof fn lemma_drop_trail_ends(s: Seq<char>, x: char)
    ensures
        drop_trail(s, false, x).len() > 0 ==> drop_trail(s, false, x).last() != x && drop_trail(s, false, x)[0]
            == s[0],
    decreases s.len(),
{
    if s.len() > 0 && s.last() == x {
        lemma_drop_trail_ends(s.drop_last(), x);
        if s.drop_last().len() > 0 {
            assert(s.drop_last()[0] == s[0]);
        }
    }
}

proof fn lemma_cleaned_unquoted(item: Seq<char>)
    ensures
        cleaned(item).len() > 0 ==> unquoted_alias(cleaned(item)),
{
    let y = stripped_of(trimmed(item), '"');
    lemma_drop_lead_first(y, '\'');
    lemma_drop_trail_ends(drop_lead(y, false, '\''), '\'');
}

proof fn lemma_inline_aliases_unquoted(s: Seq<char>, p: int)
    ensures
        forall|i: int| 0 <= i < inline_aliases(s, p).len() ==> unquoted_alias(#[trigger] inline_aliases(s, p)[i]),
    decreases s.len() + 1 - p,
{
    if 0 <= p <= s.len() {
        lemma_find_from(s, ',', p);
        let (piece, next) = match find_from(s, ',', p) {
            Some(i) => (s.subrange(p, i), i + 1),
            None => (s.subrange(p, s.len() as int), s.len() as int + 1),
        };
        lemma_cleaned_unquoted(piece);
        lemma_inline_aliases_unquoted(s, next);
        let head: Seq<Seq<char>> = if cleaned(piece).len() > 0 {
            seq![cleaned(piece)]
        } else {
            Seq::empty()
        };
        assert(inline_aliases(s, p) == head + inline_aliases(s, next));
        assert forall|i: int| 0 <= i < inline_aliases(s, p).len() implies unquoted_alias(
            #[trigger] inline_aliases(s, p)[i],
        ) by {
            if i >= head.len() {
                assert(inline_aliases(s, p)[i] == inline_aliases(s, next)[i - head.len()]);
            }
        }
    }
}

proof fn lemma_alias_scan_unquoted(ls: Seq<Seq<char>>)
    ensures
        forall|i: int| 0 <= i < alias_scan(ls).0.len() ==> unquoted_alias(#[trigger] alias_scan(ls).0[i]),
    decreases ls.len(),
{
    if ls.len() > 0 {
        lemma_alias_scan_unquoted(ls.drop_last());
        let st = alias_scan(ls.drop_last());
        let line = ls.last();
        let t = trimmed(without_comment(line));
        if has_prefix(t, "aliases:"@) {
            let rest = trimmed(t.subrange(8, t.len() as int));
            if rest.len() > 0 && rest[0] == '[' && rest.last() == ']' {
                let inl = inline_aliases(rest.subrange(1, rest.len() - 1), 0);
                lemma_inline_aliases_unquoted(rest.subrange(1, rest.len() - 1), 0);
                assert forall|i: int| 0 <= i < (st.0 + inl).len() implies unquoted_alias(#[trigger] (st.0 + inl)[i]) by {
                    if i >= st.0.len() {
                        assert((st.0 + inl)[i] == inl[i - st.0.len()]);
                    }
                }
            }
        } else if st.1 && has_prefix(t, "- "@) {
            lemma_cleaned_unquoted(t.subrange(2, t.len() as int));
        }
    }
}

/// Every alias a frontmatter block lists is not empty and has its single
/// quotes taken off: it neither starts nor ends with `'`, whether it came
/// from an inline `[..]` list or a `- item` line.
pub proof fn lemma_aliases_unquoted(block: Seq<char>)
    ensures
        forall|i: int| 0 <= i < block_aliases(block).len() ==> unquoted_alias(#[trigger] block_aliases(block)[i]),
{
    lemma_alias_scan_unquoted(lines_from(block, 0));
}

/// The aliases the frontmatter of `text` lists; `None` when it has no
/// frontmatter.
pub fn parse_frontmatter(text: &str) -> (r: Option<Frontmatter>)
    ensures
        r matches Some(f) ==> frontmatter_block(text@) matches Some(b) && f@ == block_aliases(b),
        r is None ==> frontmatter_block(text@) is None,
{
    let block = match extract_frontmatter_block(text) {
        Some(b) => b,
        None => {
            return None;
        },
    };
    let n = block.unicode_len();
    let mut aliases: Vec<String> = Vec::new();
    let mut in_block = false;
    let ghost mut done: Seq<Seq<char>> = Seq::empty();
    let mut p: usize = 0;
    assert(string_views(aliases@) =~= Seq::<Seq<char>>::empty());
    assert(done + lines_from(block@, 0) =~= lines_from(block@, 0));
    while p < n
        invariant
            p <= n,
            n == block@.len(),
            done + lines_from(block@, p as int) == lines_from(block@, 0),
            (string_views(aliases@), in_block) == alias_scan(done),
        decreases n - p,
    {
        let line = line_at_exec(block, p);
        let e = line_end_at(block, p);
        let ghost next_lines = if e < n {
            lines_from(block@, e + 1)
        } else {
            Seq::<Seq<char>>::empty()
        };
        assert(lines_from(block@, p as int) == seq![line@] + next_lines);
        in_block = read_alias_line(&mut aliases, in_block, line);
        proof {
            assert(done.push(line@).drop_last() =~= done);
            assert(done.push(line@) + next_lines =~= done + (seq![line@] + next_lines));
            done = done.push(line@);
        }
        if e >= n {
            assert(done + Seq::<Seq<char>>::empty() =~= done);
            p = n;
        } else {
            p = e + 1;
        }
    }
    assert(done + Seq::<Seq<char>>::empty() =~= done);
    Some(Frontmatter { aliases })
}

} // verus!
