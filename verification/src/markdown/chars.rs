//! Character-level string helpers: whitespace trimming, searching and prefix
//! tests, stated over the characters of a string.

use vstd::prelude::*;
use vstd::string::*;

verus! {

/// Unicode `White_Space`, the property `char::is_whitespace` tests.
pub open spec fn is_ws(c: char) -> bool {
    ||| ('\u{9}' <= c <= '\u{d}')
    ||| c == ' '
    ||| c == '\u{85}'
    ||| c == '\u{a0}'
    ||| c == '\u{1680}'
    ||| ('\u{2000}' <= c <= '\u{200a}')
    ||| c == '\u{2028}'
    ||| c == '\u{2029}'
    ||| c == '\u{202f}'
    ||| c == '\u{205f}'
    ||| c == '\u{3000}'
}

pub fn is_whitespace(c: char) -> (b: bool)
    ensures
        b == is_ws(c),
{
    ('\u{9}' <= c && c <= '\u{d}') || c == ' ' || c == '\u{85}' || c == '\u{a0}' || c == '\u{1680}'
        || ('\u{2000}' <= c && c <= '\u{200a}') || c == '\u{2028}' || c == '\u{2029}' || c
        == '\u{202f}' || c == '\u{205f}' || c == '\u{3000}'
}

/// Whether `c` is stripped: whitespace when `ws`, otherwise `x`.
pub open spec fn stripped_char(ws: bool, x: char, c: char) -> bool {
    if ws {
        is_ws(c)
    } else {
        c == x
    }
}

/// `s` without its leading stripped characters.
pub open spec fn drop_lead(s: Seq<char>, ws: bool, x: char) -> Seq<char>
    decreases s.len(),
{
    if s.len() > 0 && stripped_char(ws, x, s[0]) {
        drop_lead(s.drop_first(), ws, x)
    } else {
        s
    }
}

/// `s` without its trailing stripped characters.
pub open spec fn drop_trail(s: Seq<char>, ws: bool, x: char) -> Seq<char>
    decreases s.len(),
{
    if s.len() > 0 && stripped_char(ws, x, s.last()) {
        drop_trail(s.drop_last(), ws, x)
    } else {
        s
    }
}

/// `str::trim`: without leading and trailing whitespace.
pub open spec fn trimmed(s: Seq<char>) -> Seq<char> {
    drop_trail(drop_lead(s, true, ' '), true, ' ')
}

/// `str::trim_start`: without leading whitespace.
pub open spec fn trimmed_start(s: Seq<char>) -> Seq<char> {
    drop_lead(s, true, ' ')
}

/// `str::trim_matches` with one character: without leading and trailing
/// copies of `x`.
pub open spec fn stripped_of(s: Seq<char>, x: char) -> Seq<char> {
    drop_trail(drop_lead(s, false, x), false, x)
}

/// `p` is a prefix of `s`.
pub open spec fn has_prefix(s: Seq<char>, p: Seq<char>) -> bool {
    p.len() <= s.len() && s.subrange(0, p.len() as int) == p
}

/// Index of the first `x` in `s` at or after `from`.
pub open spec fn find_from(s: Seq<char>, x: char, from: int) -> Option<int>
    decreases s.len() - from,
{
    if from < 0 || from >= s.len() {
        None
    } else if s[from] == x {
        Some(from)
    } else {
        find_from(s, x, from + 1)
    }
}

proof fn lemma_drop_lead_at(s: Seq<char>, ws: bool, x: char, i: int)
    requires
        0 <= i <= s.len(),
        forall|k: int| 0 <= k < i ==> stripped_char(ws, x, #[trigger] s[k]),
    ensures
        drop_lead(s, ws, x) == drop_lead(s.subrange(i, s.len() as int), ws, x),
    decreases i,
{
    if i > 0 {
        assert(stripped_char(ws, x, s[0]));
        let t = s.drop_first();
        assert forall|k: int| 0 <= k < i - 1 implies stripped_char(ws, x, #[trigger] t[k]) by {
            assert(t[k] == s[k + 1]);
        }
        lemma_drop_lead_at(t, ws, x, i - 1);
        assert(t.subrange(i - 1, t.len() as int) =~= s.subrange(i, s.len() as int));
    } else {
        assert(s.subrange(0, s.len() as int) =~= s);
    }
}

proof fn lemma_drop_trail_at(s: Seq<char>, ws: bool, x: char, j: int)
    requires
        0 <= j <= s.len(),
        forall|k: int| j <= k < s.len() ==> stripped_char(ws, x, #[trigger] s[k]),
    ensures
        drop_trail(s, ws, x) == drop_trail(s.subrange(0, j), ws, x),
    decreases s.len() - j,
{
    if j < s.len() {
        assert(stripped_char(ws, x, s.last()));
        let t = s.drop_last();
        assert forall|k: int| j <= k < t.len() implies stripped_char(ws, x, #[trigger] t[k]) by {
            assert(t[k] == s[k]);
        }
        lemma_drop_trail_at(t, ws, x, j);
        assert(t.subrange(0, j) =~= s.subrange(0, j));
    } else {
        assert(s.subrange(0, j) =~= s);
    }
}

/// The piece of `s` without leading and trailing whitespace (when `ws`) or
/// copies of `x` (otherwise).
fn strip_with(s: &str, ws: bool, x: char) -> (r: &str)
    ensures
        r@ == drop_trail(drop_lead(s@, ws, x), ws, x),
{
    let n = s.unicode_len();
    let mut i: usize = 0;
    while i < n
        invariant_except_break
            i <= n,
            n == s@.len(),
            forall|k: int| 0 <= k < i ==> stripped_char(ws, x, #[trigger] s@[k]),
        ensures
            i <= n,
            n == s@.len(),
            forall|k: int| 0 <= k < i ==> stripped_char(ws, x, #[trigger] s@[k]),
            i < n ==> !stripped_char(ws, x, s@[i as int]),
        decreases n - i,
    {
        let c = s.get_char(i);
        let hit = if ws { is_whitespace(c) } else { c == x };
        if !hit {
            break;
        }
        i += 1;
    }
    let ghost rest = s@.subrange(i as int, n as int);
    proof {
        lemma_drop_lead_at(s@, ws, x, i as int);
        if i < n {
            assert(rest[0] == s@[i as int]);
        }
        assert(drop_lead(rest, ws, x) == rest);
    }
    let mut j: usize = n;
    while j > i
        invariant_except_break
            i <= j <= n,
            n == s@.len(),
            forall|k: int| j <= k < n ==> stripped_char(ws, x, #[trigger] s@[k]),
        ensures
            i <= j <= n,
            forall|k: int| j <= k < n ==> stripped_char(ws, x, #[trigger] s@[k]),
            j > i ==> !stripped_char(ws, x, s@[j - 1]),
        decreases j,
    {
        let c = s.get_char(j - 1);
        let hit = if ws { is_whitespace(c) } else { c == x };
        if !hit {
            break;
        }
        j -= 1;
    }
    proof {
        let jj = j - i;
        assert forall|k: int| jj <= k < rest.len() implies stripped_char(ws, x, #[trigger] rest[k]) by {
            assert(rest[k] == s@[k + i]);
        }
        lemma_drop_trail_at(rest, ws, x, jj);
        let mid = rest.subrange(0, jj);
        assert(mid =~= s@.subrange(i as int, j as int));
        if jj > 0 {
            assert(mid.last() == s@[j - 1]);
        }
        assert(drop_trail(mid, ws, x) == mid);
    }
    s.substring_char(i, j)
}

/// `str::trim`.
pub fn trim(s: &str) -> (r: &str)
    ensures
        r@ == trimmed(s@),
{
    strip_with(s, true, ' ')
}

/// `str::trim_matches` with one character.
pub fn strip_char(s: &str, x: char) -> (r: &str)
    ensures
        r@ == stripped_of(s@, x),
{
    strip_with(s, false, x)
}

/// `str::trim_start`.
pub fn trim_start(s: &str) -> (r: &str)
    ensures
        r@ == trimmed_start(s@),
{
    let n = s.unicode_len();
    let mut i: usize = 0;
    while i < n
        invariant_except_break
            i <= n,
            n == s@.len(),
            forall|k: int| 0 <= k < i ==> is_ws(#[trigger] s@[k]),
        ensures
            i <= n,
            forall|k: int| 0 <= k < i ==> is_ws(#[trigger] s@[k]),
            i < n ==> !is_ws(s@[i as int]),
        decreases n - i,
    {
        if !is_whitespace(s.get_char(i)) {
            break;
        }
        i += 1;
    }
    proof {
        lemma_drop_lead_at(s@, true, ' ', i as int);
        let rest = s@.subrange(i as int, n as int);
        if i < n {
            assert(rest[0] == s@[i as int]);
        }
        assert(drop_lead(rest, true, ' ') == rest);
    }
    s.substring_char(i, n)
}

/// Whether `p` is a prefix of `s`.
pub fn starts_with(s: &str, p: &str) -> (b: bool)
    ensures
        b == has_prefix(s@, p@),
{
    let n = s.unicode_len();
    let m = p.unicode_len();
    if m > n {
        return false;
    }
    let mut i: usize = 0;
    while i < m
        invariant
            i <= m <= n,
            n == s@.len(),
            m == p@.len(),
            forall|k: int| 0 <= k < i ==> s@[k] == p@[k],
        decreases m - i,
    {
        if s.get_char(i) != p.get_char(i) {
            assert(s@.subrange(0, m as int)[i as int] != p@[i as int]);
            return false;
        }
        i += 1;
    }
    assert(s@.subrange(0, m as int) =~= p@);
    true
}

pub proof fn lemma_find_from(s: Seq<char>, x: char, from: int)
    ensures
        find_from(s, x, from) matches Some(i) ==> from <= i < s.len() && s[i] == x,
    decreases s.len() - from,
{
    if !(from < 0 || from >= s.len()) && s[from] != x {
        lemma_find_from(s, x, from + 1);
    }
}

/// Index of the first `x` in `s` at or after `from`.
pub fn find_char(s: &str, x: char, from: usize) -> (r: Option<usize>)
    ensures
        r matches Some(i) ==> find_from(s@, x, from as int) == Some(i as int) && from <= i < s@.len(),
        r is None ==> find_from(s@, x, from as int) is None,
{
    proof {
        lemma_find_from(s@, x, from as int);
    }
    let n = s.unicode_len();
    let mut i = from;
    while i < n
        invariant
            from <= i,
            n == s@.len(),
            find_from(s@, x, from as int) == find_from(s@, x, i as int),
        decreases n - i,
    {
        if s.get_char(i) == x {
            return Some(i);
        }
        i += 1;
    }
    None
}

} // verus!
