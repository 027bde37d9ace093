use crate::fnv::{fnv1a_32, fnv1a_32_spec};
use vstd::prelude::*;
use vstd::slice::slice_subrange;
use vstd::string::StringSliceAdditionalSpecFns;

verus! {

/// A 32-bit byte offset into a source buffer.
pub type TextSize = u32;

/// Immutable source bytes. Positions are 32-bit offsets, so the buffer is
/// always shorter than `u32::MAX` bytes.
pub struct SourceText {
    buffer: Vec<u8>,
}

/// A borrowed run of source bytes.
#[derive(Clone, Copy)]
pub struct TextSpan<'a> {
    bytes: &'a [u8],
}

impl<'a> View for TextSpan<'a> {
    type V = Seq<u8>;

    closed spec fn view(&self) -> Seq<u8> {
        self.bytes@
    }
}

impl<'a> TextSpan<'a> {
    pub fn as_slice(&self) -> (r: &'a [u8])
        ensures
            r@ == self@,
    {
        self.bytes
    }

    /// The FNV-1a hash of the span's bytes, so that equal spans hash alike
    /// wherever they lie in the buffer.
    pub fn hash(&self) -> (r: u32)
        ensures
            r == fnv1a_32_spec(self@),
    {
        fnv1a_32(self.bytes)
    }
}

impl View for SourceText {
    type V = Seq<u8>;

    closed spec fn view(&self) -> Seq<u8> {
        self.buffer@
    }
}

/// The first position at or after `start` that holds `byte`, if any.
pub open spec fn is_next_occurrence(s: Seq<u8>, byte: u8, start: int, p: int) -> bool {
    &&& start <= p < s.len()
    &&& s[p] == byte
    &&& forall|q: int| start <= q < p ==> s[q] != byte
}

impl SourceText {
    /// The invariant of every buffer: its length fits a 32-bit offset.
    pub closed spec fn wf(&self) -> bool {
        self.buffer@.len() < u32::MAX
    }

    pub broadcast proof fn lemma_wf(&self)
        requires
            #[trigger] self.wf(),
        ensures
            self@.len() < u32::MAX,
    {
    }

    /// Copies the bytes of `s`.
    pub fn from_str(s: &str) -> (r: SourceText)
        requires
            s.spec_bytes().len() < u32::MAX,
        ensures
            r.wf(),
            r@ == s.spec_bytes(),
    {
        let bytes = s.as_bytes();
        let v = slice_to_bytes(bytes);
        SourceText::new(v)
    }

    /// Takes ownership of `buffer`.
    pub fn new(buffer: Vec<u8>) -> (r: SourceText)
        requires
            buffer@.len() < u32::MAX,
        ensures
            r.wf(),
            r@ == buffer@,
    {
        SourceText { buffer }
    }

    pub fn len(&self) -> (r: TextSize)
        requires
            self.wf(),
        ensures
            r == self@.len(),
    {
        self.buffer.len() as u32
    }

    pub fn get_byte(&self, index: TextSize) -> (r: u8)
        requires
            index < self@.len(),
        ensures
            r == self@[index as int],
    {
        self.buffer[index as usize]
    }

    /// The bytes in `[start, end)`.
    pub fn get_slice(&self, start: TextSize, end: TextSize) -> (r: &[u8])
        requires
            start <= end <= self@.len(),
        ensures
            r@ == self@.subrange(start as int, end as int),
    {
        slice_subrange(self.buffer.as_slice(), start as usize, end as usize)
    }

    /// The bytes in `[start, end)` as a span.
    pub fn get_span(&self, start: TextSize, end: TextSize) -> (r: TextSpan<'_>)
        requires
            start <= end <= self@.len(),
        ensures
            r@ == self@.subrange(start as int, end as int),
    {
        TextSpan { bytes: self.get_slice(start, end) }
    }

    /// The next position at or after `start` holding `byte`.
    pub fn find_next(&self, byte: u8, start: TextSize) -> (r: Option<TextSize>)
        requires
            self.wf(),
            start <= self@.len(),
        ensures
            r matches Some(p) ==> is_next_occurrence(self@, byte, start as int, p as int),
            r is None ==> forall|q: int| start <= q < self@.len() ==> self@[q] != byte,
    {
        let haystack = slice_subrange(self.buffer.as_slice(), start as usize, self.buffer.len());
        match index_of(byte, haystack) {
            Some(offset) => {
                assert forall|q: int| start <= q < start + offset implies self@[q] != byte by {
                    assert(haystack@[q - start] == self@[q]);
                }
                assert(haystack@[offset as int] == self@[start + offset]);
                Some(start + offset as u32)
            },
            None => {
                assert forall|q: int| start <= q < self@.len() implies self@[q] != byte by {
                    assert(haystack@[q - start] == self@[q]);
                }
                None
            },
        }
    }
}

/// Copies a byte slice into a vector.
fn slice_to_bytes(bytes: &[u8]) -> (r: Vec<u8>)
    ensures
        r@ == bytes@,
{
    let mut v: Vec<u8> = Vec::with_capacity(bytes.len());
    let mut i: usize = 0;
    while i < bytes.len()
        invariant
            i <= bytes@.len(),
            v@ == bytes@.subrange(0, i as int),
        decreases bytes@.len() - i,
    {
        v.push(bytes[i]);
        i += 1;
    }
    v
}

/// The offset of the first `byte` in `haystack`.
fn index_of(byte: u8, haystack: &[u8]) -> (r: Option<usize>)
    ensures
        r matches Some(p) ==> is_next_occurrence(haystack@, byte, 0, p as int),
        r is None ==> forall|q: int| 0 <= q < haystack@.len() ==> haystack@[q] != byte,
{
    let mut i: usize = 0;
    while i < haystack.len()
        invariant
            i <= haystack@.len(),
            forall|q: int| 0 <= q < i ==> haystack@[q] != byte,
        decreases haystack@.len() - i,
    {
        if haystack[i] == byte {
            return Some(i);
        }
        i += 1;
    }
    None
}

} // verus!
