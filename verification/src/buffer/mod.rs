//! Text storage addressed by UTF-8 byte offsets.

use vstd::prelude::*;
use vstd::std_specs::iter::IteratorSpec;
use vstd::utf8::*;
use vstd::string::*;
use crate::encoding::{lemma_boundary_iff, lemma_encode_concat, str_len, substr};

verus! {

pub trait Buffer {
    /// The buffer's contents as UTF-8 bytes.
    spec fn bytes(&self) -> Seq<u8>;

    /// The contents are always valid UTF-8.
    proof fn lemma_valid(&self)
        ensures
            valid_utf8(self.bytes()),
    ;

    /// Number of bytes held.
    fn len(&self) -> (n: usize)
        ensures
            n == self.bytes().len(),
    ;

    /// True when the buffer holds no bytes.
    fn is_empty(&self) -> (b: bool)
        ensures
            b == (self.bytes().len() == 0),
    {
        self.len() == 0
    }

    /// Inserts `text` at byte `offset`, which must be a character boundary.
    fn insert(&mut self, offset: usize, text: &str)
        requires
            is_char_boundary(old(self).bytes(), offset as int),
            old(self).bytes().len() + text.spec_bytes().len() <= usize::MAX,
        ensures
            final(self).bytes() == old(self).bytes().subrange(0, offset as int)
                + text.spec_bytes() + old(self).bytes().subrange(
                offset as int,
                old(self).bytes().len() as int,
            ),
    ;

    /// The text between two character boundaries.
    fn slice(&self, start: usize, end: usize) -> (r: &str)
        requires
            start <= end,
            is_char_boundary(self.bytes(), start as int),
            is_char_boundary(self.bytes(), end as int),
        ensures
            r.spec_bytes() == self.bytes().subrange(start as int, end as int),
    ;

    /// Removes the bytes between two character boundaries.
    fn delete(&mut self, start: usize, end: usize)
        requires
            start <= end,
            is_char_boundary(old(self).bytes(), start as int),
            is_char_boundary(old(self).bytes(), end as int),
        ensures
            final(self).bytes() == old(self).bytes().subrange(0, start as int)
                + old(self).bytes().subrange(end as int, old(self).bytes().len() as int),
    ;

    /// The text between two character boundaries as a single chunk.
    fn chunks(&self, start: usize, end: usize) -> (it: std::iter::Once<&str>)
        requires
            start <= end,
            is_char_boundary(self.bytes(), start as int),
            is_char_boundary(self.bytes(), end as int),
        ensures
            it.remaining().len() == 1,
            it.remaining()[0].spec_bytes() == self.bytes().subrange(start as int, end as int),
    ;
}

#[verifier::external_type_specification]
#[verifier::external_body]
#[verifier::reject_recursive_types(T)]
pub struct ExOnce<T>(std::iter::Once<T>);

/// `std::iter::once` builds an iterator that yields its argument exactly
/// once: what remains to be yielded is that one value.
pub assume_specification<T>[ std::iter::once::<T> ](value: T) -> (it: std::iter::Once<T>)
    ensures
        it.remaining() == seq![value],
;

pub struct GapBuffer {
    text: String,
}

impl GapBuffer {
    pub fn new(text: &str) -> (b: GapBuffer)
        ensures
            b.bytes() == text.spec_bytes(),
    {
        GapBuffer { text: text.to_owned() }
    }
}

impl Buffer for GapBuffer {
    closed spec fn bytes(&self) -> Seq<u8> {
        encode_utf8(self.text@)
    }

    proof fn lemma_valid(&self) {
        encode_utf8_valid_utf8(self.text@);
    }

    fn len(&self) -> (n: usize) {
        str_len(self.text.as_str())
    }

    fn insert(&mut self, offset: usize, text: &str) {
        let ghost old_b = self.bytes();
        let s = self.text.as_str();
        let n = str_len(s);
        proof {
            encode_utf8_valid_utf8(self.text@);
            lemma_boundary_iff(old_b, offset as int);
            lemma_boundary_iff(old_b, n as int);
        }
        let head = substr(s, 0, offset);
        let tail = substr(s, offset, n);
        let mut out = String::from_str(head);
        out.append(text);
        out.append(tail);
        proof {
            lemma_encode_concat(head@, text@);
            lemma_encode_concat(head@ + text@, tail@);
        }
        self.text = out;
    }

    fn slice(&self, start: usize, end: usize) -> (r: &str) {
        substr(self.text.as_str(), start, end)
    }

    fn delete(&mut self, start: usize, end: usize) {
        let ghost old_b = self.bytes();
        let s = self.text.as_str();
        let n = str_len(s);
        proof {
            encode_utf8_valid_utf8(self.text@);
            lemma_boundary_iff(old_b, end as int);
            lemma_boundary_iff(old_b, start as int);
            lemma_boundary_iff(old_b, n as int);
        }
        let head = substr(s, 0, start);
        let tail = substr(s, end, n);
        let mut out = String::from_str(head);
        out.append(tail);
        proof {
            lemma_encode_concat(head@, tail@);
        }
        self.text = out;
    }

    fn chunks(&self, start: usize, end: usize) -> std::iter::Once<&str> {
        std::iter::once(substr(self.text.as_str(), start, end))
    }
}

} // verus!
