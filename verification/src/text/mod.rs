//! Grapheme clusters and display widths, addressed by UTF-8 byte offsets.

use unicode_segmentation::UnicodeSegmentation;
use unicode_width::UnicodeWidthStr;
use vstd::prelude::*;
use vstd::utf8::*;
use vstd::string::*;
use crate::encoding::{str_len, substr};

verus! {

/// Byte offsets at which the extended grapheme clusters of a text start, as
/// `unicode_segmentation` computes them.
pub uninterp spec fn grapheme_starts(s: Seq<char>) -> Seq<usize>;

/// Displayed width in columns of a text, as `unicode_width` computes it.
pub uninterp spec fn str_width(s: Seq<char>) -> usize;

/// Grapheme starts partition the text: they are strictly increasing
/// character boundaries, the first is 0, and there are none exactly when the
/// text is empty.
pub open spec fn partitions(b: Seq<u8>, starts: Seq<usize>) -> bool {
    &&& (starts.len() == 0) == (b.len() == 0)
    &&& starts.len() > 0 ==> starts[0] == 0
    &&& forall|i: int|
        0 <= i < starts.len() ==> (#[trigger] starts[i]) < b.len() && is_char_boundary(
            b,
            starts[i] as int,
        )
    &&& forall|i: int, j: int| 0 <= i < j < starts.len() ==> (#[trigger] starts[i]) < (#[trigger] starts[j])
}

/// `grapheme_indices(true)` of `unicode_segmentation` yields the extended
/// grapheme clusters of `s` with their byte offsets; this keeps the offsets.
/// The clusters are consecutive non-empty slices of `s` between character
/// boundaries, covering it from its first byte to its last.
#[verifier::external_body]
pub(crate) fn grapheme_offsets(s: &str) -> (r: Vec<usize>)
    ensures
        r@ == grapheme_starts(s@),
        partitions(s.spec_bytes(), r@),
{
    s.grapheme_indices(true).map(|(i, _)| i).collect()
}

/// `UnicodeWidthStr::width` of `unicode_width`: the displayed width of `s`.
#[verifier::external_body]
fn width_of(s: &str) -> (w: usize)
    ensures
        w == str_width(s@),
{
    s.width()
}

/// End offset of grapheme `i`: the next start, or the end of the text.
pub open spec fn grapheme_end(b: Seq<u8>, starts: Seq<usize>, i: int) -> int {
    if i + 1 < starts.len() {
        starts[i + 1] as int
    } else {
        b.len() as int
    }
}

/// The characters of grapheme `i`.
pub open spec fn grapheme_chars(b: Seq<u8>, starts: Seq<usize>, i: int) -> Seq<char> {
    decode_utf8(b.subrange(starts[i] as int, grapheme_end(b, starts, i)))
}

/// Sum of the widths of the first `k` graphemes.
pub open spec fn widths_sum(b: Seq<u8>, starts: Seq<usize>, k: int) -> int
    decreases k,
{
    if k <= 0 {
        0
    } else {
        widths_sum(b, starts, k - 1) + str_width(grapheme_chars(b, starts, k - 1)) as int
    }
}

/// Displayed width of a text: the sum of the widths of its graphemes.
pub open spec fn display_width_of(s: Seq<char>) -> int {
    let b = encode_utf8(s);
    widths_sum(b, grapheme_starts(s), grapheme_starts(s).len() as int)
}

/// The offset of grapheme `idx`, or the text's length past the last one.
pub open spec fn grapheme_offset(b: Seq<u8>, starts: Seq<usize>, idx: int) -> int {
    if 0 <= idx < starts.len() {
        starts[idx] as int
    } else {
        b.len() as int
    }
}

/// A grapheme lies strictly inside the text, between character boundaries.
pub proof fn lemma_grapheme_piece(b: Seq<u8>, starts: Seq<usize>, i: int)
    requires
        valid_utf8(b),
        partitions(b, starts),
        0 <= i < starts.len(),
    ensures
        starts[i] < grapheme_end(b, starts, i) <= b.len(),
        is_char_boundary(b, grapheme_end(b, starts, i)),
        is_char_boundary(b, starts[i] as int),
{
    if i + 1 < starts.len() {
        assert(starts[i] < starts[i + 1]);
    } else {
        is_char_boundary_start_end_of_seq(b);
    }
}

/// Number of extended grapheme clusters.
pub fn grapheme_len(s: &str) -> (n: usize)
    ensures
        n == grapheme_starts(s@).len(),
        partitions(s.spec_bytes(), grapheme_starts(s@)),
{
    grapheme_offsets(s).len()
}

/// Width of the first grapheme cluster of `g`.
pub fn grapheme_width(g: &str) -> (w: usize)
    requires
        g@.len() > 0,
    ensures
        w == str_width(grapheme_chars(g.spec_bytes(), grapheme_starts(g@), 0)),
{
    let starts = grapheme_offsets(g);
    let ghost b = g.spec_bytes();
    proof {
        encode_utf8_valid_utf8(g@);
        if b.len() == 0 {
            assert(encode_utf8(g@) =~= encode_scalar(g@[0] as u32) + encode_utf8(g@.drop_first()));
        }
        lemma_grapheme_piece(b, starts@, 0);
    }
    let end = if starts.len() > 1 { starts[1] } else { str_len(g) };
    let first = substr(g, 0, end);
    proof {
        encode_utf8_decode_utf8(first@);
    }
    width_of(first)
}

/// Sum of the byte lengths of the first `k` graphemes.
pub open spec fn lengths_sum(b: Seq<u8>, starts: Seq<usize>, k: int) -> int
    decreases k,
{
    if k <= 0 {
        0
    } else {
        lengths_sum(b, starts, k - 1) + (grapheme_end(b, starts, k - 1) - starts[k - 1])
    }
}

/// The offset of grapheme `k` is the sum of the byte lengths of the
/// graphemes before it; past the last grapheme it is the text's length.
pub proof fn lemma_offset_is_sum(b: Seq<u8>, starts: Seq<usize>, k: int)
    requires
        partitions(b, starts),
        0 <= k <= starts.len(),
    ensures
        grapheme_offset(b, starts, k) == lengths_sum(b, starts, k),
    decreases k,
{
    if k > 0 {
        lemma_offset_is_sum(b, starts, k - 1);
    }
}


/// Byte offset of grapheme `grapheme_idx` (the text's length past the end).
pub fn grapheme_to_byte_offset(s: &str, grapheme_idx: usize) -> (r: usize)
    ensures
        r == grapheme_offset(s.spec_bytes(), grapheme_starts(s@), grapheme_idx as int),
        r == lengths_sum(
            s.spec_bytes(),
            grapheme_starts(s@),
            if grapheme_idx < grapheme_starts(s@).len() {
                grapheme_idx as int
            } else {
                grapheme_starts(s@).len() as int
            },
        ),
{
    let starts = grapheme_offsets(s);
    proof {
        if grapheme_idx < starts@.len() {
            lemma_offset_is_sum(s.spec_bytes(), starts@, grapheme_idx as int);
        } else {
            lemma_offset_is_sum(s.spec_bytes(), starts@, starts@.len() as int);
        }
    }
    if grapheme_idx < starts.len() {
        starts[grapheme_idx]
    } else {
        str_len(s)
    }
}

/// Index of the grapheme that contains byte `byte_offset`; past the end of
/// the text, the text's length in bytes.
pub fn byte_to_grapheme_offset(s: &str, byte_offset: usize) -> (r: usize)
    ensures
        ({
            let b = s.spec_bytes();
            let st = grapheme_starts(s@);
            &&& byte_offset < b.len() ==> r < st.len() && st[r as int] <= byte_offset
                < grapheme_end(b, st, r as int)
            &&& byte_offset >= b.len() ==> r == b.len()
        }),
{
    let starts = grapheme_offsets(s);
    let ghost b = s.spec_bytes();
    let n = str_len(s);
    let mut i: usize = 0;
    while i < starts.len()
        invariant
            i <= starts@.len(),
            n == b.len(),
            b == s.spec_bytes(),
            starts@ == grapheme_starts(s@),
            partitions(b, starts@),
            i > 0 ==> byte_offset >= grapheme_end(b, starts@, i - 1),
        decreases starts@.len() - i,
    {
        let end = if i + 1 < starts.len() { starts[i + 1] } else { n };
        if starts[i] <= byte_offset && byte_offset < end {
            return i;
        }
        proof {
            if i > 0 {
                assert(grapheme_end(b, starts@, i - 1) == starts@[i as int]);
            } else {
                assert(starts@[0] == 0);
            }
        }
        i += 1;
    }
    proof {
        if starts@.len() == 0 {
        } else {
            assert(grapheme_end(b, starts@, starts@.len() - 1) == b.len());
        }
    }
    n
}

/// Displayed width of `s` when it fits in a `usize`.
pub fn display_width_checked(s: &str) -> (r: Option<usize>)
    ensures
        r is None <==> display_width_of(s@) > usize::MAX,
        r matches Some(w) ==> w == display_width_of(s@),
{
    let starts = grapheme_offsets(s);
    let ghost b = s.spec_bytes();
    let n = str_len(s);
    proof {
        encode_utf8_valid_utf8(s@);
    }
    let mut total: usize = 0;
    let mut i: usize = 0;
    while i < starts.len()
        invariant
            i <= starts@.len(),
            n == b.len(),
            b == s.spec_bytes(),
            b == encode_utf8(s@),
            valid_utf8(b),
            starts@ == grapheme_starts(s@),
            partitions(b, starts@),
            total == widths_sum(b, starts@, i as int),
        decreases starts@.len() - i,
    {
        proof {
            lemma_grapheme_piece(b, starts@, i as int);
        }
        let end = if i + 1 < starts.len() { starts[i + 1] } else { n };
        let g = substr(s, starts[i], end);
        proof {
            encode_utf8_decode_utf8(g@);
        }
        let w = width_of(g);
        if w > usize::MAX - total {
            proof {
                lemma_widths_sum_mono(b, starts@, i + 1, starts@.len() as int);
            }
            return None;
        }
        total = total + w;
        i += 1;
    }
    Some(total)
}

/// Displayed width of `s`: the sum of the widths of its graphemes.
pub fn display_width(s: &str) -> (w: usize)
    requires
        display_width_of(s@) <= usize::MAX,
    ensures
        w == display_width_of(s@),
{
    match display_width_checked(s) {
        Some(w) => w,
        None => 0,
    }
}

proof fn lemma_widths_sum_mono(b: Seq<u8>, starts: Seq<usize>, i: int, j: int)
    requires
        0 <= i <= j,
    ensures
        widths_sum(b, starts, i) <= widths_sum(b, starts, j),
    decreases j - i,
{
    if i < j {
        lemma_widths_sum_mono(b, starts, i, j - 1);
    }
}

} // verus!
