//! UTF-8 facts shared by every module that addresses text by byte offset.

use vstd::prelude::*;
use vstd::utf8::*;
use vstd::string::*;

verus! {

/// Encoding a concatenation is the concatenation of the encodings.
pub proof fn lemma_encode_concat(a: Seq<char>, b: Seq<char>)
    ensures
        encode_utf8(a + b) == encode_utf8(a) + encode_utf8(b),
    decreases a.len(),
{
    if a.len() == 0 {
        assert(a + b =~= b);
        assert(encode_utf8(a) =~= Seq::<u8>::empty());
        assert(encode_utf8(a) + encode_utf8(b) =~= encode_utf8(b));
    } else {
        assert((a + b).drop_first() =~= a.drop_first() + b);
        lemma_encode_concat(a.drop_first(), b);
        assert((a + b)[0] == a[0]);
        assert(encode_utf8(a + b) =~= encode_scalar(a[0] as u32) + encode_utf8(a.drop_first() + b));
        assert(encode_utf8(a) + encode_utf8(b) =~= encode_scalar(a[0] as u32) + (encode_utf8(
            a.drop_first(),
        ) + encode_utf8(b)));
    }
}

/// A byte offset is a character boundary of valid UTF-8 exactly when it is the
/// end of the text or the byte there does not continue an earlier character.
pub proof fn lemma_boundary_iff(bytes: Seq<u8>, i: int)
    requires
        valid_utf8(bytes),
    ensures
        is_char_boundary(bytes, i) <==> (i == bytes.len() || (0 <= i < bytes.len()
            && !is_continuation_byte(bytes[i]))),
{
    if 0 <= i < bytes.len() {
        is_char_boundary_iff_not_is_continuation_byte(bytes, i);
    } else if i == bytes.len() {
        is_char_boundary_start_end_of_seq(bytes);
    } else {
        if i < 0 {
            reveal_with_fuel(is_char_boundary, 1);
        } else {
            lemma_boundary_out_of_range(bytes, i);
        }
    }
}

proof fn lemma_boundary_out_of_range(bytes: Seq<u8>, i: int)
    requires
        valid_utf8(bytes),
        i > bytes.len(),
    ensures
        !is_char_boundary(bytes, i),
    decreases bytes.len(),
{
    if bytes.len() == 0 {
    } else {
        let rest = pop_first_scalar(bytes);
        assert(rest.len() == bytes.len() - length_of_first_scalar(bytes));
        lemma_boundary_out_of_range(rest, i - length_of_first_scalar(bytes));
    }
}

/// In a concatenation of valid UTF-8, the boundaries up to the end of the
/// first part are exactly the boundaries of the first part.
pub proof fn lemma_boundary_prefix(x: Seq<u8>, y: Seq<u8>, i: int)
    requires
        valid_utf8(x),
        valid_utf8(y),
        0 <= i <= x.len(),
    ensures
        valid_utf8(x + y),
        is_char_boundary(x + y, i) == is_char_boundary(x, i),
{
    valid_utf8_concat(x, y);
    lemma_boundary_iff(x + y, i);
    lemma_boundary_iff(x, i);
    if i == x.len() {
        is_char_boundary_start_end_of_seq(x);
        if y.len() > 0 {
            is_char_boundary_start_end_of_seq(y);
            lemma_boundary_iff(y, 0);
            assert((x + y)[i] == y[0]);
        }
    } else {
        assert((x + y)[i] == x[i]);
    }
}

/// The bytes between two boundaries of valid UTF-8 are valid UTF-8.
pub proof fn lemma_valid_between(b: Seq<u8>, i: int, j: int)
    requires
        valid_utf8(b),
        i <= j,
        is_char_boundary(b, i),
        is_char_boundary(b, j),
    ensures
        valid_utf8(b.subrange(i, j)),
        0 <= i <= j <= b.len(),
{
    lemma_boundary_iff(b, i);
    lemma_boundary_iff(b, j);
    valid_utf8_split(b, j);
    let head = b.subrange(0, j);
    assert(head =~= head.subrange(0, i) + head.subrange(i, j));
    assert(b =~= head + b.subrange(j, b.len() as int));
    lemma_boundary_prefix(head, b.subrange(j, b.len() as int), i);
    valid_utf8_split(head, i);
    assert(head.subrange(i, head.len() as int) =~= b.subrange(i, j));
}

/// After a one-byte character at a boundary comes another boundary.
pub proof fn lemma_ascii_next_boundary(b: Seq<u8>, i: int)
    requires
        valid_utf8(b),
        is_char_boundary(b, i),
        0 <= i < b.len(),
        b[i] < 0x80,
    ensures
        is_char_boundary(b, i + 1),
{
    lemma_boundary_iff(b, i);
    is_char_boundary_start_end_of_seq(b);
    lemma_valid_between(b, 0, i);
    let head = b.subrange(0, i);
    let one = seq![b[i]];
    assert(valid_utf8(one)) by {
        reveal_with_fuel(valid_utf8, 2);
        assert(pop_first_scalar(one) =~= Seq::<u8>::empty());
    }
    valid_utf8_concat(head, one);
    let pre = head + one;
    assert(pre =~= b.subrange(0, i + 1));
    lemma_valid_between(b, i, b.len() as int);
    let rest = b.subrange(i, b.len() as int);
    assert(pop_first_scalar(rest) =~= b.subrange(i + 1, b.len() as int));
    assert(b =~= pre + b.subrange(i + 1, b.len() as int));
    is_char_boundary_start_end_of_seq(pre);
    lemma_boundary_prefix(pre, b.subrange(i + 1, b.len() as int), i + 1);
}

/// Character boundary of a string's UTF-8 bytes.
pub open spec fn str_boundary(s: &str, i: int) -> bool {
    is_char_boundary(s.spec_bytes(), i)
}

/// Byte length of a string.
pub fn str_len(s: &str) -> (n: usize)
    ensures
        n == s.spec_bytes().len(),
{
    s.as_bytes().len()
}

/// The piece of `s` between two character boundaries, as a borrowed string.
pub fn substr<'a>(s: &'a str, start: usize, end: usize) -> (r: &'a str)
    requires
        start <= end,
        str_boundary(s, start as int),
        str_boundary(s, end as int),
    ensures
        r.spec_bytes() == s.spec_bytes().subrange(start as int, end as int),
{
    let ghost b = s.spec_bytes();
    proof {
        encode_utf8_valid_utf8(s@);
        lemma_boundary_iff(b, end as int);
        lemma_boundary_iff(b, start as int);
    }
    let (head, _) = s.split_at(end);
    let ghost hb = head.spec_bytes();
    proof {
        valid_utf8_split(b, end as int);
        assert(hb =~= b.subrange(0, end as int));
        lemma_boundary_iff(hb, start as int);
        if start < end {
            assert(hb[start as int] == b[start as int]);
        }
    }
    let (_, mid) = head.split_at(start);
    assert(mid.spec_bytes() =~= b.subrange(start as int, end as int));
    mid
}

} // verus!
