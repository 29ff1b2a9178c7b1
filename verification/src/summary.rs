//! Additive summaries of text fragments: byte count and line-break count.
//! They form a commutative monoid under component-wise addition, with a
//! partial subtraction; the rope keeps one per subtree and updates them in
//! constant time as leaves change.

use crate::text::count_line_breaks;
use crate::text::lemma_line_breaks_le_len;
use crate::text::line_breaks;
use vstd::prelude::*;

verus! {

/// Byte count and line-break count of a text fragment.
#[derive(Copy, Clone, Debug, PartialEq, Eq, Structural)]
pub struct ChunkSummary {
    pub bytes: usize,
    pub line_breaks: usize,
}

/// `self` is the exact summary of the byte sequence `s`.
impl ChunkSummary {
    pub open spec fn summarizes(self, s: Seq<u8>) -> bool {
        self.bytes == s.len() && self.line_breaks == line_breaks(s)
    }

    /// Component-wise sum, truncated like `as usize`; the executable `add`
    /// proves the sum fits, so no truncation happens there.
    pub open spec fn spec_add(self, rhs: ChunkSummary) -> ChunkSummary {
        ChunkSummary {
            bytes: (self.bytes + rhs.bytes) as usize,
            line_breaks: (self.line_breaks + rhs.line_breaks) as usize,
        }
    }

    /// Component-wise difference; meaningful only under `rhs.le(self)`.
    pub open spec fn spec_sub(self, rhs: ChunkSummary) -> ChunkSummary {
        ChunkSummary {
            bytes: (self.bytes - rhs.bytes) as usize,
            line_breaks: (self.line_breaks - rhs.line_breaks) as usize,
        }
    }

    /// Component-wise order; exactly when `self` can be subtracted from
    /// `rhs`.
    pub open spec fn le(self, rhs: ChunkSummary) -> bool {
        self.bytes <= rhs.bytes && self.line_breaks <= rhs.line_breaks
    }

    /// The summary of no text at all.
    pub fn empty() -> (r: ChunkSummary)
        ensures
            r.summarizes(Seq::<u8>::empty()),
            r.bytes == 0,
            r.line_breaks == 0,
    {
        ChunkSummary { bytes: 0, line_breaks: 0 }
    }

    /// Summarizes a byte string by scanning it.
    pub fn from_str(s: &[u8]) -> (r: ChunkSummary)
        ensures
            r.summarizes(s@),
    {
        ChunkSummary { bytes: s.len(), line_breaks: count_line_breaks(s) }
    }

    /// Component-wise sum.
    pub fn add(self, rhs: ChunkSummary) -> (r: ChunkSummary)
        requires
            self.bytes + rhs.bytes <= usize::MAX,
            self.line_breaks + rhs.line_breaks <= usize::MAX,
        ensures
            r == self.spec_add(rhs),
            r.bytes == self.bytes + rhs.bytes,
            r.line_breaks == self.line_breaks + rhs.line_breaks,
    {
        ChunkSummary {
            bytes: self.bytes + rhs.bytes,
            line_breaks: self.line_breaks + rhs.line_breaks,
        }
    }

    /// Component-wise difference.
    pub fn sub(self, rhs: ChunkSummary) -> (r: ChunkSummary)
        requires
            rhs.le(self),
        ensures
            r == self.spec_sub(rhs),
            r.bytes == self.bytes - rhs.bytes,
            r.line_breaks == self.line_breaks - rhs.line_breaks,
    {
        ChunkSummary {
            bytes: self.bytes - rhs.bytes,
            line_breaks: self.line_breaks - rhs.line_breaks,
        }
    }
}

impl Default for ChunkSummary {
    /// The summary of no text at all.
    fn default() -> (r: ChunkSummary)
        ensures
            r.bytes == 0,
            r.line_breaks == 0,
    {
        ChunkSummary { bytes: 0, line_breaks: 0 }
    }
}

/// A summary of actual text never counts more line breaks than bytes.
pub proof fn lemma_summary_wf(s: ChunkSummary, text: Seq<u8>)
    requires
        s.summarizes(text),
    ensures
        s.line_breaks <= s.bytes,
{
    lemma_line_breaks_le_len(text);
}

/// Addition of summaries is commutative.
pub proof fn lemma_add_comm(x: ChunkSummary, y: ChunkSummary)
    ensures
        x.spec_add(y) == y.spec_add(x),
{
}

/// Addition of summaries is associative.
pub proof fn lemma_add_assoc(x: ChunkSummary, y: ChunkSummary, z: ChunkSummary)
    requires
        x.bytes + y.bytes + z.bytes <= usize::MAX,
        x.line_breaks + y.line_breaks + z.line_breaks <= usize::MAX,
    ensures
        x.spec_add(y).spec_add(z) == x.spec_add(y.spec_add(z)),
{
}

/// The summary of no text is the neutral element of addition.
pub proof fn lemma_add_zero(x: ChunkSummary)
    ensures
        x.spec_add(ChunkSummary { bytes: 0, line_breaks: 0 }) == x,
{
}

/// Subtracting and adding back a component-wise smaller summary is the
/// identity: `(x - y) + y == x` whenever `y.le(x)`.
pub proof fn lemma_sub_add_cancel(x: ChunkSummary, y: ChunkSummary)
    requires
        y.le(x),
    ensures
        x.spec_sub(y).spec_add(y) == x,
{
}

/// The summary of a concatenation is the sum of the summaries.
pub proof fn lemma_summarizes_concat(x: ChunkSummary, y: ChunkSummary, a: Seq<u8>, b: Seq<u8>)
    requires
        x.summarizes(a),
        y.summarizes(b),
        x.bytes + y.bytes <= usize::MAX,
    ensures
        x.spec_add(y).summarizes(a + b),
{
    crate::text::lemma_line_breaks_concat(a, b);
    lemma_line_breaks_le_len(a);
    lemma_line_breaks_le_len(b);
}

} // verus!
