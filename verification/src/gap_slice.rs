//! A non-owning view of a gap buffer: the two text segments borrowed as
//! byte strings, together with the cached line-break count of the left
//! one. The tree iterates and summarizes leaves through these views
//! without taking ownership.

use crate::summary::ChunkSummary;
use crate::text::is_utf8;
use crate::text::lemma_line_breaks_concat;
use crate::text::lemma_line_breaks_le_len;
use crate::text::line_breaks;
use vstd::prelude::*;

verus! {

/// Borrowed view of a gap buffer: its two segments and the line-break
/// count of the left one.
#[derive(Clone, Copy)]
pub struct GapSlice<'a> {
    pub left_bytes: &'a [u8],
    pub right_bytes: &'a [u8],
    pub line_breaks_left: usize,
}

impl<'a> GapSlice<'a> {
    /// The viewed text: both segments with the gap closed.
    pub open spec fn text(&self) -> Seq<u8> {
        self.left_bytes@ + self.right_bytes@
    }

    pub open spec fn spec_len(&self) -> int {
        self.left_bytes@.len() + self.right_bytes@.len() as int
    }

    /// The same invariant a buffer keeps: both segments are valid UTF-8
    /// and the cached line-break count is exact.
    pub open spec fn wf(&self) -> bool {
        &&& is_utf8(self.left_bytes@)
        &&& is_utf8(self.right_bytes@)
        &&& self.line_breaks_left == line_breaks(self.left_bytes@)
    }

    /// The left segment as a byte string.
    pub fn left_chunk(&self) -> (r: &'a [u8])
        ensures
            r@ == self.left_bytes@,
    {
        self.left_bytes
    }

    /// The right segment as a byte string.
    pub fn right_chunk(&self) -> (r: &'a [u8])
        ensures
            r@ == self.right_bytes@,
    {
        self.right_bytes
    }

    /// Byte length of the left segment.
    pub fn len_left(&self) -> (r: usize)
        ensures
            r == self.left_bytes@.len(),
    {
        self.left_bytes.len()
    }

    /// Byte length of the right segment.
    pub fn len_right(&self) -> (r: usize)
        ensures
            r == self.right_bytes@.len(),
    {
        self.right_bytes.len()
    }

    /// Combined byte length of the two segments.
    pub fn len(&self) -> (r: usize)
        requires
            self.spec_len() <= usize::MAX,
        ensures
            r == self.spec_len(),
    {
        self.left_bytes.len() + self.right_bytes.len()
    }

    /// The exact summary of the viewed text.
    pub fn summarize(&self) -> (r: ChunkSummary)
        requires
            self.wf(),
            self.spec_len() <= usize::MAX,
        ensures
            r.summarizes(self.text()),
    {
        proof {
            lemma_line_breaks_concat(self.left_bytes@, self.right_bytes@);
            lemma_line_breaks_le_len(self.left_bytes@);
            lemma_line_breaks_le_len(self.right_bytes@);
        }
        let line_breaks = self.line_breaks_left + crate::text::count_line_breaks(
            self.right_bytes,
        );
        ChunkSummary { bytes: self.len(), line_breaks }
    }
}

} // verus!
