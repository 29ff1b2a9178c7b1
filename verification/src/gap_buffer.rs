//! The gap buffer itself: a fixed block of `MAX` bytes holding UTF-8 text
//! in two segments, one at each end, with the unused gap in the middle.
//! Mutations shift bytes across the gap instead of reallocating, and a
//! cached count of the line breaks in the left segment is maintained
//! incrementally.

use crate::summary::ChunkSummary;
use crate::text::count_line_breaks;
use crate::text::is_char_boundary;
use crate::text::is_utf8;
use crate::text::lemma_line_breaks_concat;
use crate::text::lemma_line_breaks_le_len;
use crate::text::lemma_utf8_concat;
use crate::text::lemma_utf8_split;
use crate::text::adjust_split_point;
use crate::text::chunk_views;
use crate::text::concat_of;
use crate::text::lemma_concat_of_split;
use crate::text::lemma_concat_of_take_next;
use crate::text::line_breaks;
use crate::text::next_boundary;
use crate::text::prev_boundary;
use crate::text::split_adjusted;
use vstd::prelude::*;
use vstd::slice::slice_subrange;

verus! {

/// Copies `v[src .. src_end]` onto `v[dest .. dest + (src_end - src)]`,
/// handling overlap like `copy_within`.
fn copy_within(v: &mut Vec<u8>, src: usize, src_end: usize, dest: usize)
    requires
        src <= src_end <= old(v)@.len(),
        dest + (src_end - src) <= old(v)@.len(),
    ensures
        final(v)@.len() == old(v)@.len(),
        forall|k: int|
            0 <= k < final(v)@.len() ==> final(v)@[k] == (if dest <= k < dest + (src_end - src) {
                old(v)@[src + (k - dest)]
            } else {
                old(v)@[k]
            }),
{
    let n = src_end - src;
    proof {
        vstd::std_specs::vec::axiom_spec_len(v);
    }
    if dest <= src {
        let mut i: usize = 0;
        while i < n
            invariant
                i <= n,
                n == src_end - src,
                dest <= src,
                src <= src_end <= v@.len(),
                dest + n <= v@.len(),
                v@.len() <= usize::MAX,
                v@.len() == old(v)@.len(),
                forall|k: int|
                    0 <= k < v@.len() ==> v@[k] == (if dest <= k < dest + i {
                        old(v)@[src + (k - dest)]
                    } else {
                        old(v)@[k]
                    }),
            decreases n - i,
        {
            let b = v[src + i];
            v.set(dest + i, b);
            i = i + 1;
        }
    } else {
        let mut i: usize = n;
        while i > 0
            invariant
                i <= n,
                n == src_end - src,
                dest > src,
                src <= src_end <= v@.len(),
                dest + n <= v@.len(),
                v@.len() <= usize::MAX,
                v@.len() == old(v)@.len(),
                forall|k: int|
                    0 <= k < v@.len() ==> v@[k] == (if dest + i <= k < dest + n {
                        old(v)@[src + (k - dest)]
                    } else {
                        old(v)@[k]
                    }),
            decreases i,
        {
            i = i - 1;
            let b = v[src + i];
            v.set(dest + i, b);
        }
    }
}

/// Writes `s` onto `v[at .. at + s.len()]`.
fn write_at(v: &mut Vec<u8>, at: usize, s: &[u8])
    requires
        at + s@.len() <= old(v)@.len(),
    ensures
        final(v)@.len() == old(v)@.len(),
        forall|k: int|
            0 <= k < final(v)@.len() ==> final(v)@[k] == (if at <= k < at + s@.len() {
                s@[k - at]
            } else {
                old(v)@[k]
            }),
{
    proof {
        vstd::std_specs::vec::axiom_spec_len(v);
    }
    let mut j: usize = 0;
    while j < s.len()
        invariant
            j <= s@.len(),
            at + s@.len() <= v@.len(),
            v@.len() <= usize::MAX,
            v@.len() == old(v)@.len(),
            forall|k: int|
                0 <= k < v@.len() ==> v@[k] == (if at <= k < at + j {
                    s@[k - at]
                } else {
                    old(v)@[k]
                }),
        decreases s@.len() - j,
    {
        let b = s[j];
        v.set(at + j, b);
        j = j + 1;
    }
}

impl<const MAX: usize> Default for GapBuffer<MAX> {
    /// An empty buffer with its full storage allocated.
    fn default() -> (r: Self)
        ensures
            r.wf(),
            r.text() == Seq::<u8>::empty(),
            r.len_left == 0,
            r.len_right == 0,
            r.line_breaks_left == 0,
    {
        Self::new()
    }
}

/// Appending text and then removing everything before it restores it:
/// `append_str` turns a text `prev` into `prev + s`, and `remove_up_to`
/// at `prev.len()` then leaves exactly `s`.
pub proof fn lemma_append_then_remove(prev: Seq<u8>, s: Seq<u8>)
    ensures
        (prev + s).skip(prev.len() as int) == s,
        (prev + s).take(prev.len() as int) == prev,
{
    assert((prev + s).skip(prev.len() as int) =~= s);
    assert((prev + s).take(prev.len() as int) =~= prev);
}

/// Recombining a truncated-and-replaced buffer with the reseeded rest of
/// its tail restores the full replacement result.
proof fn lemma_recombine_right(
    t: Seq<u8>,
    s: Seq<u8>,
    el: Seq<u8>,
    er: Seq<u8>,
    ft: Seq<u8>,
    ex: Seq<u8>,
    start: int,
    end: int,
    c3: int,
)
    requires
        0 <= start <= end <= t.len(),
        el + er == t.skip(end),
        end + el.len() + c3 <= t.len(),
        0 <= c3 <= er.len(),
        ft == t.take(end + el.len() + c3).take(start) + s + t.take(end + el.len() + c3).skip(
            end,
        ),
        ex == er.skip(c3),
    ensures
        ft + ex == t.take(start) + s + t.skip(end),
{
    let c = el.len() + c3;
    assert(t.take(end + c).take(start) =~= t.take(start));
    assert(t.take(end + c).skip(end) =~= el + er.take(c3)) by {
        assert forall|i: int| 0 <= i < c implies t.take(end + c).skip(end)[i] == (el + er.take(
            c3,
        ))[i] by {
            assert(t.take(end + c).skip(end)[i] == t[end + i]);
            assert(t[end + i] == t.skip(end)[i]);
            assert(t.skip(end)[i] == (el + er)[i]);
        }
    }
    assert(er.take(c3) + er.skip(c3) =~= er);
    assert(ft + ex =~= t.take(start) + s + t.skip(end));
}

/// A gap buffer with a capacity of `MAX` bytes: the left segment sits at
/// the front of the storage, the right segment at the very end, and the
/// gap between them absorbs edits. Both segments hold whole UTF-8 code
/// points, and `line_breaks_left` caches the number of line breaks in the
/// left segment.
pub struct GapBuffer<const MAX: usize> {
    pub bytes: Vec<u8>,
    pub len_left: usize,
    pub line_breaks_left: usize,
    pub len_right: usize,
}

impl<const MAX: usize> GapBuffer<MAX> {
    /// The left segment.
    pub open spec fn left(&self) -> Seq<u8> {
        self.bytes@.take(self.len_left as int)
    }

    /// The right segment.
    pub open spec fn right(&self) -> Seq<u8> {
        self.bytes@.skip(MAX as int - self.len_right as int)
    }

    /// The stored text: both segments with the gap closed.
    pub open spec fn text(&self) -> Seq<u8> {
        self.left() + self.right()
    }

    pub open spec fn spec_len(&self) -> int {
        self.len_left + self.len_right
    }

    pub open spec fn spec_len_gap(&self) -> int {
        MAX as int - self.spec_len()
    }

    /// The invariant every operation preserves: the segments fit, each is
    /// valid UTF-8, and the cached line-break count is exact.
    pub open spec fn wf(&self) -> bool {
        &&& self.bytes@.len() == MAX
        &&& self.len_left + self.len_right <= MAX
        &&& is_utf8(self.left())
        &&& is_utf8(self.right())
        &&& self.line_breaks_left == line_breaks(self.left())
    }

    /// Rebalance target: a buffer holding fewer bytes is underfilled.
    pub open spec fn spec_min_bytes() -> int {
        MAX as int / 4
    }

    /// Smallest legal leaf: a split landing inside a 4-byte code point can
    /// leave a leaf up to 3 bytes below the rebalance target.
    pub open spec fn spec_chunk_min() -> int {
        if Self::spec_min_bytes() >= 3 {
            Self::spec_min_bytes() - 3
        } else {
            0
        }
    }

    /// The number of bytes leaves must always stay over.
    pub fn chunk_min() -> (r: usize)
        ensures
            r == Self::spec_chunk_min(),
    {
        let min = Self::min_bytes();
        if min >= 3 {
            min - 3
        } else {
            0
        }
    }

    /// The minimum number of bytes this buffer should have to not be
    /// considered underfilled.
    pub fn min_bytes() -> (r: usize)
        ensures
            r == Self::spec_min_bytes(),
    {
        MAX / 4
    }

    /// An empty buffer with its full storage allocated.
    pub fn new() -> (r: Self)
        ensures
            r.wf(),
            r.text() == Seq::<u8>::empty(),
            r.len_left == 0,
            r.len_right == 0,
            r.line_breaks_left == 0,
    {
        let r = GapBuffer { bytes: vec![0u8; MAX], len_left: 0, line_breaks_left: 0, len_right: 0 };
        proof {
            assert(r.left() =~= Seq::<u8>::empty());
            assert(r.right() =~= Seq::<u8>::empty());
            assert(r.text() =~= Seq::<u8>::empty());
        }
        r
    }

    /// Combined byte length of the two segments.
    pub fn len(&self) -> (r: usize)
        requires
            self.wf(),
        ensures
            r == self.spec_len(),
    {
        self.len_left + self.len_right
    }

    /// True when the buffer holds no text.
    pub fn is_empty(&self) -> (r: bool)
        requires
            self.wf(),
        ensures
            r == (self.spec_len() == 0),
    {
        self.len() == 0
    }

    /// Byte length of the left segment.
    pub fn len_left(&self) -> (r: usize)
        ensures
            r == self.len_left,
    {
        self.len_left
    }

    /// Byte length of the right segment.
    pub fn len_right(&self) -> (r: usize)
        ensures
            r == self.len_right,
    {
        self.len_right
    }

    /// Byte length of the gap.
    pub fn len_gap(&self) -> (r: usize)
        requires
            self.wf(),
        ensures
            r == self.spec_len_gap(),
    {
        MAX - self.len_left - self.len_right
    }

    /// The left segment as a byte string.
    pub fn left_chunk(&self) -> (r: &[u8])
        requires
            self.wf(),
        ensures
            r@ == self.left(),
            is_utf8(r@),
    {
        slice_subrange(self.bytes.as_slice(), 0, self.len_left)
    }

    /// The right segment as a byte string.
    pub fn right_chunk(&self) -> (r: &[u8])
        requires
            self.wf(),
        ensures
            r@ == self.right(),
            is_utf8(r@),
    {
        slice_subrange(self.bytes.as_slice(), MAX - self.len_right, MAX)
    }

    /// The right segment if it is not empty, or the left one otherwise.
    pub fn last_chunk(&self) -> (r: &[u8])
        requires
            self.wf(),
        ensures
            r@ == (if self.right().len() == 0 {
                self.left()
            } else {
                self.right()
            }),
    {
        if self.len_right == 0 {
            self.left_chunk()
        } else {
            self.right_chunk()
        }
    }

    /// True when the stored text ends in a line break.
    pub fn has_trailing_newline(&self) -> (r: bool)
        requires
            self.wf(),
        ensures
            r == (self.text().len() > 0 && self.text().last() == 10u8),
    {
        let r = crate::text::last_byte_is_newline(self.last_chunk());
        proof {
            if self.right().len() == 0 {
                assert(self.text() =~= self.left());
            } else {
                assert(self.text().len() > 0);
                assert(self.text().last() == self.right().last());
            }
        }
        r
    }


    /// True when `byte_offset` lies on a code-point boundary of the stored
    /// text.
    pub fn is_char_boundary(&self, byte_offset: usize) -> (r: bool)
        requires
            self.wf(),
            byte_offset <= self.spec_len(),
        ensures
            r == is_char_boundary(self.text(), byte_offset as int),
    {
        if byte_offset == self.len_left + self.len_right {
            true
        } else {
            let b = if byte_offset < self.len_left {
                proof {
                    assert(self.text()[byte_offset as int] == self.bytes@[byte_offset as int]);
                }
                self.bytes[byte_offset]
            } else {
                proof {
                    assert(self.text()[byte_offset as int] == self.right()[byte_offset
                        - self.len_left]);
                }
                self.bytes[MAX - self.len_right + (byte_offset - self.len_left)]
            };
            !(0x80 <= b && b <= 0xbf)
        }
    }

    /// The exact summary of the stored text: its byte length and its
    /// line-break count.
    pub fn summarize(&self) -> (r: ChunkSummary)
        requires
            self.wf(),
        ensures
            r.summarizes(self.text()),
            r.bytes == self.spec_len(),
    {
        proof {
            lemma_line_breaks_concat(self.left(), self.right());
            lemma_line_breaks_le_len(self.left());
            lemma_line_breaks_le_len(self.right());
        }
        let line_breaks = self.line_breaks_left + count_line_breaks(self.right_chunk());
        ChunkSummary { bytes: self.len(), line_breaks }
    }

    /// Moves the gap so that the left segment ends at `byte_offset`,
    /// recomputing the cached line-break count from the smaller of the two
    /// regions next to the move; `tot_line_breaks` must be the line-break
    /// count of the whole text. The stored text does not change, and when
    /// the gap is already there the bytes are not touched at all.
    #[verifier::rlimit(100)]
    pub fn move_gap(&mut self, byte_offset: usize, tot_line_breaks: usize)
        requires
            old(self).wf(),
            byte_offset <= old(self).spec_len(),
            is_char_boundary(old(self).text(), byte_offset as int),
            tot_line_breaks == line_breaks(old(self).text()),
        ensures
            final(self).wf(),
            final(self).text() == old(self).text(),
            final(self).len_left == byte_offset,
            final(self).len_right == old(self).spec_len() - byte_offset,
            final(self).line_breaks_left == line_breaks(old(self).text().take(byte_offset as int)),
            final(self).left() == old(self).text().take(byte_offset as int),
            final(self).right() == old(self).text().skip(byte_offset as int),
            byte_offset == old(self).len_left ==> final(self).bytes@ == old(self).bytes@
                && final(self).line_breaks_left == old(self).line_breaks_left,
    {
        proof {
            lemma_line_breaks_concat(old(self).left(), old(self).right());
        }
        if byte_offset < self.len_left {
            // aa|bb~~~ccc => aa~~~bbccc
            let len_moved = self.len_left - byte_offset;
            proof {
                assert(old(self).left().take(byte_offset as int) + old(self).left().skip(
                    byte_offset as int,
                ) =~= old(self).left());
                lemma_line_breaks_concat(
                    old(self).left().take(byte_offset as int),
                    old(self).left().skip(byte_offset as int),
                );
                assert(is_char_boundary(old(self).left(), byte_offset as int));
                lemma_utf8_split(old(self).left(), byte_offset as int);
                lemma_utf8_concat(old(self).left().skip(byte_offset as int), old(self).right());
            }
            if len_moved <= self.len_left / 2 {
                let moved_line_breaks = count_line_breaks(
                    slice_subrange(self.left_chunk(), byte_offset, self.len_left),
                );
                self.line_breaks_left = self.line_breaks_left - moved_line_breaks;
            } else {
                self.line_breaks_left = count_line_breaks(
                    slice_subrange(self.left_chunk(), 0, byte_offset),
                );
            }
            let dest = MAX - self.len_right - len_moved;
            copy_within(&mut self.bytes, byte_offset, byte_offset + len_moved, dest);
            self.len_left = byte_offset;
            self.len_right = self.len_right + len_moved;
            proof {
                assert(final(self).left() =~= old(self).left().take(byte_offset as int));
                assert(final(self).right() =~= old(self).left().skip(byte_offset as int) + old(
                    self,
                ).right());
                assert(final(self).text() =~= old(self).text());
                assert(old(self).text().take(byte_offset as int) =~= old(self).left().take(
                    byte_offset as int,
                ));
                assert(final(self).right() =~= old(self).text().skip(byte_offset as int));
            }
        } else if byte_offset > self.len_left {
            // aaa~~~bb|cc => aaabb~~~cc
            let len_moved = byte_offset - self.len_left;
            proof {
                assert(old(self).right().take(len_moved as int) + old(self).right().skip(
                    len_moved as int,
                ) =~= old(self).right());
                lemma_line_breaks_concat(
                    old(self).right().take(len_moved as int),
                    old(self).right().skip(len_moved as int),
                );
                assert(old(self).text()[byte_offset as int] == old(self).right()[len_moved as int]
                    || byte_offset == old(self).spec_len());
                assert(is_char_boundary(old(self).right(), len_moved as int));
                lemma_utf8_split(old(self).right(), len_moved as int);
                lemma_utf8_concat(old(self).left(), old(self).right().take(len_moved as int));
                lemma_line_breaks_concat(old(self).left(), old(self).right().take(len_moved as int));
                lemma_line_breaks_le_len(old(self).left());
                lemma_line_breaks_le_len(old(self).right().take(len_moved as int));
            }
            let moved_line_breaks = if len_moved <= self.len_right / 2 {
                count_line_breaks(slice_subrange(self.right_chunk(), 0, len_moved))
            } else {
                tot_line_breaks - self.line_breaks_left - count_line_breaks(
                    slice_subrange(self.right_chunk(), len_moved, self.len_right),
                )
            };
            let src = MAX - self.len_right;
            let dest = self.len_left;
            copy_within(&mut self.bytes, src, src + len_moved, dest);
            self.line_breaks_left = self.line_breaks_left + moved_line_breaks;
            self.len_left = self.len_left + len_moved;
            self.len_right = self.len_right - len_moved;
            proof {
                assert(final(self).left() =~= old(self).left() + old(self).right().take(
                    len_moved as int,
                ));
                assert(final(self).right() =~= old(self).right().skip(len_moved as int));
                assert(final(self).text() =~= old(self).text());
                assert(old(self).text().take(byte_offset as int) =~= old(self).left() + old(
                    self,
                ).right().take(len_moved as int));
                assert(final(self).right() =~= old(self).text().skip(byte_offset as int));
            }
        } else {
            proof {
                assert(old(self).text().take(byte_offset as int) =~= old(self).left());
                assert(final(self).right() =~= old(self).text().skip(byte_offset as int));
            }
        }
    }


    /// Removes the first `byte_offset` bytes; the caller supplies the
    /// exact number of line breaks in the removed prefix.
    pub fn remove_up_to(&mut self, byte_offset: usize, removed_line_breaks: usize)
        requires
            old(self).wf(),
            byte_offset <= old(self).spec_len(),
            is_char_boundary(old(self).text(), byte_offset as int),
            removed_line_breaks == line_breaks(old(self).text().take(byte_offset as int)),
        ensures
            final(self).wf(),
            final(self).text() == old(self).text().skip(byte_offset as int),
    {
        proof {
            lemma_line_breaks_concat(old(self).left(), old(self).right());
        }
        if byte_offset <= self.len_left {
            let len_moved = self.len_left - byte_offset;
            proof {
                assert(old(self).left().take(byte_offset as int) + old(self).left().skip(
                    byte_offset as int,
                ) =~= old(self).left());
                lemma_line_breaks_concat(
                    old(self).left().take(byte_offset as int),
                    old(self).left().skip(byte_offset as int),
                );
                assert(old(self).text().take(byte_offset as int) =~= old(self).left().take(
                    byte_offset as int,
                ));
                assert(is_char_boundary(old(self).left(), byte_offset as int));
                lemma_utf8_split(old(self).left(), byte_offset as int);
            }
            copy_within(&mut self.bytes, byte_offset, byte_offset + len_moved, 0);
            self.len_left = len_moved;
            self.line_breaks_left = self.line_breaks_left - removed_line_breaks;
            proof {
                assert(final(self).left() =~= old(self).left().skip(byte_offset as int));
                assert(final(self).right() =~= old(self).right());
                assert(final(self).text() =~= old(self).text().skip(byte_offset as int));
            }
        } else {
            let len_removed_right = byte_offset - self.len_left;
            proof {
                assert(old(self).right().take(len_removed_right as int) + old(self).right().skip(
                    len_removed_right as int,
                ) =~= old(self).right());
                lemma_line_breaks_concat(
                    old(self).right().take(len_removed_right as int),
                    old(self).right().skip(len_removed_right as int),
                );
                assert(old(self).text().take(byte_offset as int) =~= old(self).left() + old(
                    self,
                ).right().take(len_removed_right as int));
                lemma_line_breaks_concat(
                    old(self).left(),
                    old(self).right().take(len_removed_right as int),
                );
                assert(old(self).text()[byte_offset as int] == old(self).right()[
                    len_removed_right as int] || byte_offset == old(self).spec_len());
                assert(is_char_boundary(old(self).right(), len_removed_right as int));
                lemma_utf8_split(old(self).right(), len_removed_right as int);
            }
            self.len_right = self.len_right - len_removed_right;
            self.len_left = 0;
            self.line_breaks_left = if self.line_breaks_left >= removed_line_breaks {
                self.line_breaks_left - removed_line_breaks
            } else {
                0
            };
            proof {
                assert(final(self).left() =~= Seq::<u8>::empty());
                assert(final(self).right() =~= old(self).right().skip(len_removed_right as int));
                assert(final(self).text() =~= old(self).text().skip(byte_offset as int));
            }
        }
    }

    /// Removes everything at and after `byte_offset`; the caller supplies
    /// the number of line breaks that this drops from the left segment,
    /// which is zero when the cut lands in the right segment.
    pub fn truncate_from(&mut self, byte_offset: usize, removed_line_breaks_left: usize)
        requires
            old(self).wf(),
            byte_offset <= old(self).spec_len(),
            is_char_boundary(old(self).text(), byte_offset as int),
            removed_line_breaks_left == (if byte_offset <= old(self).len_left {
                line_breaks(old(self).left().skip(byte_offset as int))
            } else {
                0
            }),
        ensures
            final(self).wf(),
            final(self).text() == old(self).text().take(byte_offset as int),
    {
        if byte_offset <= self.len_left {
            proof {
                assert(old(self).left().take(byte_offset as int) + old(self).left().skip(
                    byte_offset as int,
                ) =~= old(self).left());
                lemma_line_breaks_concat(
                    old(self).left().take(byte_offset as int),
                    old(self).left().skip(byte_offset as int),
                );
                assert(is_char_boundary(old(self).left(), byte_offset as int));
                lemma_utf8_split(old(self).left(), byte_offset as int);
            }
            self.len_left = byte_offset;
            self.len_right = 0;
            self.line_breaks_left = self.line_breaks_left - removed_line_breaks_left;
            proof {
                assert(final(self).left() =~= old(self).left().take(byte_offset as int));
                assert(final(self).right() =~= Seq::<u8>::empty());
                assert(final(self).text() =~= old(self).text().take(byte_offset as int));
            }
        } else {
            let len_kept_right = byte_offset - self.len_left;
            proof {
                assert(old(self).text()[byte_offset as int] == old(self).right()[
                    len_kept_right as int] || byte_offset == old(self).spec_len());
                assert(is_char_boundary(old(self).right(), len_kept_right as int));
                lemma_utf8_split(old(self).right(), len_kept_right as int);
            }
            let start = MAX - self.len_right;
            copy_within(&mut self.bytes, start, start + len_kept_right, MAX - len_kept_right);
            self.len_right = len_kept_right;
            proof {
                assert(final(self).left() =~= old(self).left());
                assert(final(self).right() =~= old(self).right().take(len_kept_right as int));
                assert(final(self).text() =~= old(self).text().take(byte_offset as int));
            }
        }
    }

    /// Like `truncate_from`, but computes the removed line-break count
    /// itself, scanning the smaller side of the cut, and returns the new
    /// summary; `summary` must be the summary of the current text.
    pub fn truncate_from_with_summary(
        &mut self,
        offset: usize,
        summary: ChunkSummary,
    ) -> (r: ChunkSummary)
        requires
            old(self).wf(),
            offset <= old(self).spec_len(),
            is_char_boundary(old(self).text(), offset as int),
            summary.summarizes(old(self).text()),
        ensures
            final(self).wf(),
            final(self).text() == old(self).text().take(offset as int),
            r.summarizes(final(self).text()),
    {
        proof {
            lemma_line_breaks_concat(old(self).left(), old(self).right());
        }
        if offset <= self.len_left {
            proof {
                assert(old(self).left().take(offset as int) + old(self).left().skip(offset as int)
                    =~= old(self).left());
                lemma_line_breaks_concat(
                    old(self).left().take(offset as int),
                    old(self).left().skip(offset as int),
                );
            }
            let line_breaks = if offset <= self.len_left / 2 {
                count_line_breaks(slice_subrange(self.left_chunk(), 0, offset))
            } else {
                self.line_breaks_left - count_line_breaks(
                    slice_subrange(self.left_chunk(), offset, self.len_left),
                )
            };
            let removed = self.line_breaks_left - line_breaks;
            self.truncate_from(offset, removed);
            proof {
                assert(final(self).text() =~= old(self).left().take(offset as int));
            }
            ChunkSummary { bytes: offset, line_breaks }
        } else {
            let len_kept_right = offset - self.len_left;
            proof {
                assert(old(self).right().take(len_kept_right as int) + old(self).right().skip(
                    len_kept_right as int,
                ) =~= old(self).right());
                lemma_line_breaks_concat(
                    old(self).right().take(len_kept_right as int),
                    old(self).right().skip(len_kept_right as int),
                );
                lemma_line_breaks_concat(
                    old(self).left(),
                    old(self).right().take(len_kept_right as int),
                );
                lemma_line_breaks_le_len(old(self).left());
                lemma_line_breaks_le_len(old(self).right().take(len_kept_right as int));
            }
            let line_breaks_right = if len_kept_right <= self.len_right / 2 {
                count_line_breaks(slice_subrange(self.right_chunk(), 0, len_kept_right))
            } else {
                summary.line_breaks - self.line_breaks_left - count_line_breaks(
                    slice_subrange(self.right_chunk(), len_kept_right, self.len_right),
                )
            };
            let line_breaks = self.line_breaks_left + line_breaks_right;
            self.truncate_from(offset, 0);
            proof {
                assert(final(self).text() =~= old(self).left() + old(self).right().take(
                    len_kept_right as int,
                ));
            }
            ChunkSummary { bytes: self.len(), line_breaks }
        }
    }

    /// Inserts `s` at `byte_offset`, moving the gap there first, and
    /// returns the new summary; `summary` must be the summary of the
    /// current text.
    pub fn insert(
        &mut self,
        insert_at: usize,
        s: &[u8],
        summary: ChunkSummary,
    ) -> (r: ChunkSummary)
        requires
            old(self).wf(),
            insert_at <= old(self).spec_len(),
            is_char_boundary(old(self).text(), insert_at as int),
            is_utf8(s@),
            s@.len() <= old(self).spec_len_gap(),
            summary.summarizes(old(self).text()),
        ensures
            final(self).wf(),
            ({
                let t = old(self).text();
                final(self).text() == t.take(insert_at as int) + s@ + t.skip(insert_at as int)
            }),
            r.summarizes(final(self).text()),
    {
        proof {
            assert(old(self).text().take(insert_at as int) + old(self).text().skip(
                insert_at as int,
            ) =~= old(self).text());
            lemma_line_breaks_concat(
                old(self).text().take(insert_at as int),
                old(self).text().skip(insert_at as int),
            );
            lemma_line_breaks_le_len(old(self).text().take(insert_at as int));
            lemma_line_breaks_le_len(old(self).text());
            lemma_line_breaks_le_len(s@);
        }
        self.move_gap(insert_at, summary.line_breaks);
        write_at(&mut self.bytes, self.len_left, s);
        self.len_left = self.len_left + s.len();
        let inserted_line_breaks = count_line_breaks(s);
        self.line_breaks_left = self.line_breaks_left + inserted_line_breaks;
        proof {
            let moved_left = old(self).text().take(insert_at as int);
            let moved_right = old(self).text().skip(insert_at as int);
            assert(final(self).left() =~= moved_left + s@);
            assert(final(self).right() =~= moved_right);
            lemma_utf8_concat(moved_left, s@);
            lemma_line_breaks_concat(moved_left, s@);
            lemma_line_breaks_concat(moved_left + s@, moved_right);
            assert(final(self).text() =~= moved_left + s@ + moved_right);
        }
        ChunkSummary {
            bytes: self.len(),
            line_breaks: summary.line_breaks + inserted_line_breaks,
        }
    }

    /// Appends `s`, shifting the right segment toward the gap; the left
    /// segment and its line-break count are untouched.
    pub fn append_str(&mut self, s: &[u8])
        requires
            old(self).wf(),
            is_utf8(s@),
            s@.len() <= old(self).spec_len_gap(),
        ensures
            final(self).wf(),
            final(self).left() == old(self).left(),
            final(self).right() == old(self).right() + s@,
            final(self).text() == old(self).text() + s@,
            final(self).len_left == old(self).len_left,
            final(self).line_breaks_left == old(self).line_breaks_left,
            final(self).len_right == old(self).len_right + s@.len(),
    {
        let start = MAX - self.len_right;
        copy_within(&mut self.bytes, start, MAX, start - s.len());
        write_at(&mut self.bytes, MAX - s.len(), s);
        self.len_right = self.len_right + s.len();
        proof {
            assert(self.left() =~= old(self).left());
            assert(self.right() =~= old(self).right() + s@);
            lemma_utf8_concat(old(self).right(), s@);
            assert(self.text() =~= old(self).text() + s@);
        }
    }

    /// Appends two strings at once, like `append_str` twice.
    #[verifier::rlimit(100)]
    pub fn append_two(&mut self, a: &[u8], b: &[u8])
        requires
            old(self).wf(),
            is_utf8(a@),
            is_utf8(b@),
            a@.len() + b@.len() <= old(self).spec_len_gap(),
        ensures
            final(self).wf(),
            final(self).left() == old(self).left(),
            final(self).right() == old(self).right() + a@ + b@,
            final(self).text() == old(self).text() + a@ + b@,
            final(self).len_left == old(self).len_left,
            final(self).line_breaks_left == old(self).line_breaks_left,
            final(self).len_right == old(self).len_right + a@.len() + b@.len(),
    {
        let start = MAX - self.len_right;
        copy_within(&mut self.bytes, start, MAX, start - a.len() - b.len());
        write_at(&mut self.bytes, MAX - b.len() - a.len(), a);
        write_at(&mut self.bytes, MAX - b.len(), b);
        self.len_right = self.len_right + a.len() + b.len();
        proof {
            assert(self.left() =~= old(self).left());
            assert(self.right() =~= old(self).right() + a@ + b@);
            lemma_utf8_concat(old(self).right(), a@);
            lemma_utf8_concat(old(self).right() + a@, b@);
            assert(self.text() =~= old(self).text() + a@ + b@);
        }
    }

    /// Prepends `s`, shifting the left segment toward the gap; the caller
    /// supplies the exact number of line breaks in `s`.
    pub fn prepend(&mut self, s: &[u8], prepended_line_breaks: usize)
        requires
            old(self).wf(),
            is_utf8(s@),
            s@.len() <= old(self).spec_len_gap(),
            prepended_line_breaks == line_breaks(s@),
        ensures
            final(self).wf(),
            final(self).left() == s@ + old(self).left(),
            final(self).right() == old(self).right(),
            final(self).text() == s@ + old(self).text(),
            final(self).len_left == old(self).len_left + s@.len(),
            final(self).line_breaks_left == old(self).line_breaks_left + prepended_line_breaks,
            final(self).len_right == old(self).len_right,
    {
        proof {
            lemma_line_breaks_le_len(old(self).left());
            lemma_line_breaks_le_len(s@);
        }
        copy_within(&mut self.bytes, 0, self.len_left, s.len());
        write_at(&mut self.bytes, 0, s);
        self.len_left = self.len_left + s.len();
        self.line_breaks_left = self.line_breaks_left + prepended_line_breaks;
        proof {
            assert(self.left() =~= s@ + old(self).left());
            assert(self.right() =~= old(self).right());
            lemma_utf8_concat(s@, old(self).left());
            lemma_line_breaks_concat(s@, old(self).left());
            assert(self.text() =~= s@ + old(self).text());
        }
    }

    /// Prepends two strings at once, like `prepend` twice; the caller
    /// supplies the combined line-break count.
    pub fn prepend_two(&mut self, a: &[u8], b: &[u8], prepended_line_breaks: usize)
        requires
            old(self).wf(),
            is_utf8(a@),
            is_utf8(b@),
            a@.len() + b@.len() <= old(self).spec_len_gap(),
            prepended_line_breaks == line_breaks(a@) + line_breaks(b@),
        ensures
            final(self).wf(),
            final(self).left() == a@ + b@ + old(self).left(),
            final(self).right() == old(self).right(),
            final(self).text() == a@ + b@ + old(self).text(),
            final(self).len_left == old(self).len_left + a@.len() + b@.len(),
            final(self).line_breaks_left == old(self).line_breaks_left + prepended_line_breaks,
            final(self).len_right == old(self).len_right,
    {
        proof {
            lemma_line_breaks_le_len(old(self).left());
            lemma_line_breaks_le_len(a@);
            lemma_line_breaks_le_len(b@);
        }
        copy_within(&mut self.bytes, 0, self.len_left, a.len() + b.len());
        write_at(&mut self.bytes, 0, a);
        write_at(&mut self.bytes, a.len(), b);
        self.len_left = self.len_left + a.len() + b.len();
        self.line_breaks_left = self.line_breaks_left + prepended_line_breaks;
        proof {
            assert(self.left() =~= a@ + b@ + old(self).left());
            assert(self.right() =~= old(self).right());
            lemma_utf8_concat(a@, b@);
            lemma_utf8_concat(a@ + b@, old(self).left());
            lemma_line_breaks_concat(a@, b@);
            lemma_line_breaks_concat(a@ + b@, old(self).left());
            assert(self.text() =~= a@ + b@ + old(self).text());
        }
    }

    /// Summarizes only `text[start .. end]`, scanning it directly.
    fn summarize_range_scan(&self, start: usize, end: usize) -> (r: ChunkSummary)
        requires
            self.wf(),
            start <= end <= self.spec_len(),
        ensures
            r.summarizes(self.text().subrange(start as int, end as int)),
    {
        if end <= self.len_left {
            let r = ChunkSummary::from_str(slice_subrange(self.left_chunk(), start, end));
            proof {
                assert(self.text().subrange(start as int, end as int) =~= self.left().subrange(
                    start as int,
                    end as int,
                ));
            }
            r
        } else if start <= self.len_left {
            let left_part = slice_subrange(self.left_chunk(), start, self.len_left);
            let right_part = slice_subrange(self.right_chunk(), 0, end - self.len_left);
            let a = ChunkSummary::from_str(left_part);
            let b = ChunkSummary::from_str(right_part);
            proof {
                crate::summary::lemma_summary_wf(a, left_part@);
                crate::summary::lemma_summary_wf(b, right_part@);
                crate::summary::lemma_summarizes_concat(a, b, left_part@, right_part@);
                assert(self.text().subrange(start as int, end as int) =~= left_part@
                    + right_part@);
            }
            a.add(b)
        } else {
            let r = ChunkSummary::from_str(
                slice_subrange(self.right_chunk(), start - self.len_left, end - self.len_left),
            );
            proof {
                assert(self.text().subrange(start as int, end as int) =~= self.right().subrange(
                    start - self.len_left,
                    end - self.len_left,
                ));
            }
            r
        }
    }

    /// The exact summary of `text[start .. end]`: scans the range when it
    /// is short, and subtracts the two flanks from `total` when the range
    /// covers more than half of the text. `total` must be the summary of
    /// the whole text, and both ends must lie on code-point boundaries.
    pub fn summarize_range(&self, start: usize, end: usize, total: ChunkSummary) -> (r:
        ChunkSummary)
        requires
            self.wf(),
            start <= end <= self.spec_len(),
            is_char_boundary(self.text(), start as int),
            is_char_boundary(self.text(), end as int),
            total.summarizes(self.text()),
        ensures
            r.summarizes(self.text().subrange(start as int, end as int)),
    {
        let len = self.len();
        if end - start <= len / 2 {
            self.summarize_range_scan(start, end)
        } else {
            let pre = self.summarize_range_scan(0, start);
            let post = self.summarize_range_scan(end, len);
            proof {
                let t = self.text();
                assert(t =~= t.subrange(0, start as int) + t.subrange(start as int, end as int)
                    + t.subrange(end as int, len as int));
                lemma_line_breaks_concat(
                    t.subrange(0, start as int) + t.subrange(start as int, end as int),
                    t.subrange(end as int, len as int),
                );
                lemma_line_breaks_concat(
                    t.subrange(0, start as int),
                    t.subrange(start as int, end as int),
                );
            }
            total.sub(pre).sub(post)
        }
    }

    /// Packs the concatenation of `chunks` into a fresh buffer, splitting
    /// it around the gap at the last code-point boundary at or below half
    /// of its total length. The concatenation must be nonempty and fit.
    pub fn from_chunks(chunks: &[&[u8]]) -> (r: Self)
        requires
            forall|j: int| 0 <= j < chunks@.len() ==> is_utf8(#[trigger] chunks@[j]@),
            concat_of(chunk_views(chunks@)).len() > 0,
            concat_of(chunk_views(chunks@)).len() <= MAX,
        ensures
            r.wf(),
            r.text() == concat_of(chunk_views(chunks@)),
            r.len_left == prev_boundary(
                concat_of(chunk_views(chunks@)),
                concat_of(chunk_views(chunks@)).len() as int / 2,
            ),
    {
        let ghost cs = chunk_views(chunks@);
        let ghost full = concat_of(cs);
        let mut bytes: Vec<u8> = vec![0u8; MAX];
        let mut filled: usize = 0;
        let mut i: usize = 0;
        proof {
            assert(bytes@.take(0) =~= concat_of(cs.take(0)));
        }
        while i < chunks.len()
            invariant
                i <= chunks@.len(),
                cs == chunk_views(chunks@),
                full == concat_of(cs),
                forall|j: int| 0 <= j < chunks@.len() ==> is_utf8(#[trigger] chunks@[j]@),
                full.len() <= MAX,
                bytes@.len() == MAX,
                filled == concat_of(cs.take(i as int)).len(),
                bytes@.take(filled as int) == concat_of(cs.take(i as int)),
                is_utf8(bytes@.take(filled as int)),
            decreases chunks@.len() - i,
        {
            let c = chunks[i];
            proof {
                lemma_concat_of_take_next(cs, i as int);
                lemma_concat_of_split(cs, i + 1);
                assert(concat_of(cs.take(i + 1)).len() <= full.len());
            }
            write_at(&mut bytes, filled, c);
            proof {
                lemma_utf8_concat(concat_of(cs.take(i as int)), c@);
                assert(bytes@.take(filled + c@.len()) =~= concat_of(cs.take(i as int)) + c@);
            }
            filled = filled + c.len();
            i = i + 1;
        }
        proof {
            assert(cs.take(chunks@.len() as int) =~= cs);
        }
        let half = filled / 2;
        let adj = adjust_split_point::<false>(slice_subrange(bytes.as_slice(), 0, filled), half);
        let len_right = filled - adj;
        copy_within(&mut bytes, adj, filled, MAX - len_right);
        let line_breaks_left = count_line_breaks(slice_subrange(bytes.as_slice(), 0, adj));
        let r = GapBuffer { bytes, len_left: adj, line_breaks_left, len_right };
        proof {
            assert(r.left() =~= full.take(adj as int));
            assert(r.right() =~= full.skip(adj as int));
            lemma_utf8_split(full, adj as int);
            assert(r.text() =~= full);
        }
        r
    }

    /// Builds a buffer from one byte string of at most `MAX` bytes; an
    /// empty string gives an empty buffer.
    pub fn from(s: &[u8]) -> (r: Self)
        requires
            is_utf8(s@),
            s@.len() <= MAX,
        ensures
            r.wf(),
            r.text() == s@,
            r.len_left == (if s@.len() == 0 {
                0int
            } else {
                prev_boundary(s@, s@.len() as int / 2)
            }),
    {
        if s.len() == 0 {
            Self::new()
        } else {
            let mut chunks: Vec<&[u8]> = Vec::new();
            chunks.push(s);
            proof {
                let cs = chunk_views(chunks@);
                assert(cs.len() == 1);
                assert(cs[0] == s@);
                cs.lemma_flatten_singleton();
            }
            Self::from_chunks(chunks.as_slice())
        }
    }

    /// The prefix of `right`'s text that `add_from_right(n, right)` moves:
    /// at most `n` bytes, adjusted down to a code-point boundary, splitting
    /// cleanly on `right`'s own segment boundary.
    pub open spec fn moved_from_right(right: Self, n: int) -> Seq<u8> {
        if n <= right.len_left {
            right.left().take(prev_boundary(right.left(), n))
        } else {
            right.left() + right.right().take(
                prev_boundary(right.right(), n - right.len_left),
            )
        }
    }

    /// The suffix of `buf`'s text that `move_to_right(n, right)` moves: at
    /// most `n` bytes, adjusted down (the cut adjusted up) to a code-point
    /// boundary, splitting cleanly on `buf`'s own segment boundary.
    pub open spec fn moved_to_right(buf: Self, n: int) -> Seq<u8> {
        if n <= buf.len_right {
            buf.right().skip(next_boundary(buf.right(), buf.len_right - n))
        } else {
            buf.left().skip(
                next_boundary(buf.left(), buf.len_left - (n - buf.len_right)),
            ) + buf.right()
        }
    }

    /// Replaces `text[start .. end]` with `s` when the result still fits in
    /// the buffer, and returns the new summary; `summary` must be the
    /// summary of the current text.
    pub fn replace_non_overflowing(
        &mut self,
        start: usize,
        end: usize,
        s: &[u8],
        summary: ChunkSummary,
    ) -> (r: ChunkSummary)
        requires
            old(self).wf(),
            start <= end <= old(self).spec_len(),
            is_char_boundary(old(self).text(), start as int),
            is_char_boundary(old(self).text(), end as int),
            is_utf8(s@),
            old(self).spec_len() - (end - start) + s@.len() <= MAX,
            summary.summarizes(old(self).text()),
        ensures
            final(self).wf(),
            ({
                let t = old(self).text();
                final(self).text() == t.take(start as int) + s@ + t.skip(end as int)
            }),
            r.summarizes(final(self).text()),
    {
        proof {
            let t = old(self).text();
            assert(t.take(end as int) =~= t.take(start as int) + t.subrange(
                start as int,
                end as int,
            ));
            lemma_line_breaks_concat(t.take(start as int), t.subrange(start as int, end as int));
            lemma_line_breaks_concat(t.take(end as int), t.skip(end as int));
            assert(t.take(end as int) + t.skip(end as int) =~= t);
            lemma_line_breaks_le_len(t.take(start as int));
            lemma_line_breaks_le_len(t.subrange(start as int, end as int));
            lemma_line_breaks_le_len(t.skip(end as int));
            lemma_line_breaks_le_len(s@);
            lemma_utf8_concat(old(self).left(), old(self).right());
            lemma_utf8_split(t, start as int);
        }
        self.move_gap(end, summary.line_breaks);
        let removed_summary = self.summarize_range(start, end, summary);
        let added_summary = ChunkSummary::from_str(s);
        write_at(&mut self.bytes, start, s);
        self.len_left = start + s.len();
        self.line_breaks_left = self.line_breaks_left - removed_summary.line_breaks
            + added_summary.line_breaks;
        let ghost t = old(self).text();
        proof {
            assert(final(self).left() =~= t.take(start as int) + s@);
            assert(final(self).right() =~= t.skip(end as int));
            lemma_utf8_concat(t.take(start as int), s@);
            lemma_line_breaks_concat(t.take(start as int), s@);
            lemma_line_breaks_concat(t.take(start as int) + s@, t.skip(end as int));
            assert(final(self).text() =~= t.take(start as int) + s@ + t.skip(end as int));
        }
        summary.sub(removed_summary).add(added_summary)
    }

    /// Moves at most `bytes_to_add` bytes from the front of `right` onto
    /// the end of this buffer (fewer when the cut would split a code
    /// point) and returns the summary of what moved.
    #[verifier::rlimit(100)]
    pub fn add_from_right(&mut self, bytes_to_add: usize, right: &mut Self) -> (r: ChunkSummary)
        requires
            old(self).wf(),
            old(right).wf(),
            bytes_to_add <= old(right).spec_len(),
            old(self).spec_len() + bytes_to_add <= MAX,
        ensures
            final(self).wf(),
            final(right).wf(),
            ({
                let moved = Self::moved_from_right(*old(right), bytes_to_add as int);
                &&& moved == old(right).text().take(moved.len() as int)
                &&& final(self).text() == old(self).text() + moved
                &&& final(right).text() == old(right).text().skip(moved.len() as int)
                &&& r.summarizes(moved)
                &&& moved.len() <= bytes_to_add
                &&& moved.len() >= bytes_to_add - 3
            }),
    {
        if bytes_to_add <= right.len_left {
            proof {
                crate::text::lemma_adjusted_boundaries(right.left(), bytes_to_add as int);
            }
            let (move_left, _keep_right) = split_adjusted::<false>(
                right.left_chunk(),
                bytes_to_add,
            );
            let summary = ChunkSummary::from_str(move_left);
            let ghost adj = prev_boundary(old(right).left(), bytes_to_add as int);
            proof {
                assert(move_left@ == old(right).left().take(adj));
                assert(old(right).text().take(adj) =~= old(right).left().take(adj));
                if adj < old(right).len_left {
                    assert(old(right).text()[adj] == old(right).left()[adj]);
                } else {
                    if old(right).len_right > 0 {
                        crate::text::lemma_utf8_first_byte(old(right).right());
                        assert(old(right).text()[adj] == old(right).right()[0]);
                    }
                }
                assert(is_char_boundary(old(right).text(), adj));
            }
            self.append_str(move_left);
            right.remove_up_to(summary.bytes, summary.line_breaks);
            summary
        } else {
            proof {
                crate::text::lemma_adjusted_boundaries(
                    old(right).right(),
                    bytes_to_add - old(right).len_left,
                );
            }
            let (move_left, _keep_right) = split_adjusted::<false>(
                right.right_chunk(),
                bytes_to_add - right.len_left,
            );
            let left_summary = ChunkSummary {
                bytes: right.len_left(),
                line_breaks: right.line_breaks_left,
            };
            proof {
                lemma_line_breaks_le_len(old(right).left());
                lemma_line_breaks_le_len(move_left@);
            }
            let summary = left_summary.add(ChunkSummary::from_str(move_left));
            let ghost adj = prev_boundary(
                old(right).right(),
                bytes_to_add - old(right).len_left,
            );
            let ghost moved = old(right).left() + old(right).right().take(adj);
            proof {
                lemma_line_breaks_concat(old(right).left(), old(right).right().take(adj));
                lemma_line_breaks_le_len(old(right).left());
                lemma_line_breaks_le_len(old(right).right().take(adj));
                assert(summary.summarizes(moved));
                assert(old(right).text().take(moved.len() as int) =~= moved);
                let off = old(right).len_left + adj;
                if adj < old(right).len_right {
                    assert(old(right).text()[off as int] == old(right).right()[adj]);
                }
                assert(is_char_boundary(old(right).text(), off as int));
                lemma_line_breaks_concat(old(right).left(), old(right).right());
            }
            self.append_two(right.left_chunk(), move_left);
            right.remove_up_to(summary.bytes, summary.line_breaks);
            summary
        }
    }

    /// Moves at most `bytes_to_move` bytes from the end of this buffer
    /// onto the front of `right` (fewer when the cut would split a code
    /// point) and returns the summary of what moved.
    #[verifier::rlimit(100)]
    pub fn move_to_right(&mut self, bytes_to_move: usize, right: &mut Self) -> (r: ChunkSummary)
        requires
            old(self).wf(),
            old(right).wf(),
            bytes_to_move <= old(self).spec_len(),
            old(right).spec_len() + bytes_to_move <= MAX,
        ensures
            final(self).wf(),
            final(right).wf(),
            ({
                let moved = Self::moved_to_right(*old(self), bytes_to_move as int);
                &&& moved == old(self).text().skip(old(self).spec_len() - moved.len())
                &&& final(self).text() == old(self).text().take(
                    old(self).spec_len() - moved.len(),
                )
                &&& final(right).text() == moved + old(right).text()
                &&& r.summarizes(moved)
                &&& moved.len() <= bytes_to_move
                &&& moved.len() >= bytes_to_move - 3
            }),
    {
        if bytes_to_move <= self.len_right {
            proof {
                crate::text::lemma_adjusted_boundaries(
                    old(self).right(),
                    old(self).len_right - bytes_to_move,
                );
            }
            let (_keep, move_right) = split_adjusted::<true>(
                self.right_chunk(),
                self.len_right - bytes_to_move,
            );
            let summary = ChunkSummary::from_str(move_right);
            let ghost adj = next_boundary(
                old(self).right(),
                old(self).len_right - bytes_to_move,
            );
            let offset = self.len() - summary.bytes;
            proof {
                let moved = Self::moved_to_right(*old(self), bytes_to_move as int);
                assert(moved == old(self).right().skip(adj));
                assert(offset == old(self).len_left + adj);
                if adj < old(self).len_right {
                    assert(old(self).text()[offset as int] == old(self).right()[adj]);
                } else {
                    assert(offset == old(self).spec_len());
                }
                assert(is_char_boundary(old(self).text(), offset as int));
                assert(old(self).text().skip(offset as int) =~= moved);
                if offset == old(self).len_left {
                    assert(old(self).left().skip(offset as int) =~= Seq::<u8>::empty());
                }
            }
            right.prepend(move_right, summary.line_breaks);
            self.truncate_from(offset, 0);
            summary
        } else {
            proof {
                crate::text::lemma_adjusted_boundaries(
                    old(self).left(),
                    old(self).len_left - (bytes_to_move - old(self).len_right),
                );
            }
            let (_keep, move_right) = split_adjusted::<true>(
                self.left_chunk(),
                self.len_left - (bytes_to_move - self.len_right),
            );
            let move_right_summary = ChunkSummary::from_str(move_right);
            let right_chunk_summary = ChunkSummary::from_str(self.right_chunk());
            proof {
                lemma_line_breaks_le_len(move_right@);
                lemma_line_breaks_le_len(old(self).right());
            }
            let summary = move_right_summary.add(right_chunk_summary);
            let ghost adj = next_boundary(
                old(self).left(),
                old(self).len_left - (bytes_to_move - old(self).len_right),
            );
            proof {
                let moved = Self::moved_to_right(*old(self), bytes_to_move as int);
                lemma_line_breaks_concat(old(self).left(), old(self).right());
                lemma_line_breaks_concat(old(self).left().skip(adj), old(self).right());
                assert(old(self).left().take(adj) + old(self).left().skip(adj) =~= old(
                    self,
                ).left());
                lemma_line_breaks_concat(old(self).left().take(adj), old(self).left().skip(adj));
                lemma_line_breaks_le_len(old(self).left().take(adj));
                lemma_line_breaks_le_len(old(self).left().skip(adj));
                lemma_line_breaks_le_len(old(self).right());
                assert(moved == old(self).left().skip(adj) + old(self).right());
                assert(summary.summarizes(moved));
                if adj < old(self).len_left {
                    assert(old(self).text()[adj] == old(self).left()[adj]);
                } else {
                    if old(self).len_right > 0 {
                        crate::text::lemma_utf8_first_byte(old(self).right());
                        assert(old(self).text()[adj] == old(self).right()[0]);
                    }
                }
                assert(is_char_boundary(old(self).text(), adj));
                assert(old(self).text().skip(adj) =~= moved);
                assert(old(self).text().take(adj) =~= old(self).left().take(adj));
            }
            right.prepend_two(move_right, self.right_chunk(), summary.line_breaks);
            self.truncate_from(self.len() - self.len_right() - move_right_summary.bytes, {
                move_right_summary.line_breaks
            });
            summary
        }
    }

    /// Concatenates all of `other` onto this buffer in one pass, leaving
    /// `other` empty; `tot_line_breaks` must be the line-break count of
    /// this buffer's text. Afterwards the whole original text sits in the
    /// left segment and `other`'s text in the right one.
    pub fn append_other(&mut self, tot_line_breaks: usize, other: &mut Self)
        requires
            old(self).wf(),
            old(other).wf(),
            tot_line_breaks == line_breaks(old(self).text()),
            old(self).spec_len() + old(other).spec_len() <= MAX,
        ensures
            final(self).wf(),
            final(other).wf(),
            final(self).text() == old(self).text() + old(other).text(),
            final(other).text() == Seq::<u8>::empty(),
            final(self).len_left == old(self).spec_len(),
            final(self).len_right == old(other).spec_len(),
    {
        proof {
            lemma_line_breaks_concat(old(self).left(), old(self).right());
            lemma_utf8_concat(old(self).left(), old(self).right());
            lemma_utf8_concat(old(other).left(), old(other).right());
        }
        let len_left = self.len_left;
        let len_right = self.len_right;
        // Close this buffer's gap.
        copy_within(&mut self.bytes, MAX - len_right, MAX, len_left);
        // Move the other buffer's two segments into this one's right segment.
        let end = MAX - other.len_right;
        write_at(&mut self.bytes, end - other.len_left, other.left_chunk());
        write_at(&mut self.bytes, end, other.right_chunk());
        self.len_left = len_left + len_right;
        self.line_breaks_left = tot_line_breaks;
        self.len_right = other.len_left + other.len_right;
        other.len_left = 0;
        other.line_breaks_left = 0;
        other.len_right = 0;
        proof {
            assert(final(self).left() =~= old(self).text());
            assert(final(self).right() =~= old(other).text());
            assert(final(other).left() =~= Seq::<u8>::empty());
            assert(final(other).right() =~= Seq::<u8>::empty());
            assert(final(other).text() =~= Seq::<u8>::empty());
        }
    }

    /// True when a leaf with this summary is below the rebalance target.
    pub fn is_underfilled(summary: &ChunkSummary) -> (r: bool)
        ensures
            r == (summary.bytes < Self::spec_min_bytes()),
    {
        summary.bytes < Self::min_bytes()
    }

    /// Rebalances two adjacent leaves: merges them when they fit in one
    /// buffer (leaving `right` empty), otherwise tops up whichever side is
    /// underfilled from the other. The concatenated text is unchanged, the
    /// summaries are kept exact, and when the leaves could not be merged
    /// both end up at or above `chunk_min`.
    #[verifier::rlimit(100)]
    pub fn balance_leaves(
        left: &mut Self,
        left_summary: &mut ChunkSummary,
        right: &mut Self,
        right_summary: &mut ChunkSummary,
    )
        requires
            old(left).wf(),
            old(right).wf(),
            old(left_summary).summarizes(old(left).text()),
            old(right_summary).summarizes(old(right).text()),
        ensures
            final(left).wf(),
            final(right).wf(),
            final(left_summary).summarizes(final(left).text()),
            final(right_summary).summarizes(final(right).text()),
            final(left).text() + final(right).text() == old(left).text() + old(right).text(),
            old(left).spec_len() + old(right).spec_len() <= MAX ==> final(left).spec_len() == old(
                left,
            ).spec_len() + old(right).spec_len() && final(right).spec_len() == 0,
            old(left).spec_len() + old(right).spec_len() > MAX ==> final(left).spec_len()
                >= Self::spec_chunk_min() && final(right).spec_len() >= Self::spec_chunk_min(),
    {
        proof {
            crate::summary::lemma_summary_wf(*old(left_summary), old(left).text());
            crate::summary::lemma_summary_wf(*old(right_summary), old(right).text());
        }
        // The two leaves fit in a single buffer.
        if right.len() <= MAX - left.len() {
            left.append_other(left_summary.line_breaks, right);
            *left_summary = left_summary.add(*right_summary);
            *right_summary = ChunkSummary::empty();
            proof {
                crate::summary::lemma_summarizes_concat(
                    *old(left_summary),
                    *old(right_summary),
                    old(left).text(),
                    old(right).text(),
                );
            }
        } else if left.len() < Self::min_bytes() {
            // The left side is underfilled: take text from the right side.
            let missing_left = Self::min_bytes() - left.len();
            let moved_left = left.add_from_right(missing_left, right);
            proof {
                crate::summary::lemma_summary_wf(
                    moved_left,
                    Self::moved_from_right(*old(right), missing_left as int),
                );
            }
            proof {
                let moved = Self::moved_from_right(*old(right), missing_left as int);
                crate::summary::lemma_summarizes_concat(
                    *old(left_summary),
                    moved_left,
                    old(left).text(),
                    moved,
                );
                assert(old(right).text().take(moved.len() as int) + old(right).text().skip(
                    moved.len() as int,
                ) =~= old(right).text());
                lemma_line_breaks_concat(moved, old(right).text().skip(moved.len() as int));
            }
            *left_summary = left_summary.add(moved_left);
            *right_summary = right_summary.sub(moved_left);
            proof {
                assert(final(left).text() + final(right).text() =~= old(left).text() + old(
                    right,
                ).text());
            }
        } else if right.len() < Self::min_bytes() {
            // The right side is underfilled: take text from the left side.
            let missing_right = Self::min_bytes() - right.len();
            let moved_right = left.move_to_right(missing_right, right);
            proof {
                crate::summary::lemma_summary_wf(
                    moved_right,
                    Self::moved_to_right(*old(left), missing_right as int),
                );
            }
            proof {
                let moved = Self::moved_to_right(*old(left), missing_right as int);
                crate::summary::lemma_summarizes_concat(
                    moved_right,
                    *old(right_summary),
                    moved,
                    old(right).text(),
                );
                assert(old(left).text().take(old(left).spec_len() - moved.len()) + old(
                    left,
                ).text().skip(old(left).spec_len() - moved.len()) =~= old(left).text());
                lemma_line_breaks_concat(
                    old(left).text().take(old(left).spec_len() - moved.len()),
                    moved,
                );
            }
            *left_summary = left_summary.sub(moved_right);
            *right_summary = moved_right.add(*right_summary);
            proof {
                assert(final(left).text() + final(right).text() =~= old(left).text() + old(
                    right,
                ).text());
            }
        }
    }

    /// A borrowed view of this buffer's two segments.
    pub fn as_slice(&self) -> (r: crate::gap_slice::GapSlice<'_>)
        requires
            self.wf(),
        ensures
            r.wf(),
            r.text() == self.text(),
            r.left_bytes@ == self.left(),
            r.right_bytes@ == self.right(),
            r.line_breaks_left == self.line_breaks_left,
    {
        crate::gap_slice::GapSlice {
            left_bytes: self.left_chunk(),
            right_bytes: self.right_chunk(),
            line_breaks_left: self.line_breaks_left,
        }
    }

    /// A fresh buffer holding a slice's text, with the same segment split
    /// and counters.
    pub fn from_slice(slice: crate::gap_slice::GapSlice<'_>) -> (r: Self)
        requires
            slice.wf(),
            slice.spec_len() <= MAX,
        ensures
            r.wf(),
            r.text() == slice.text(),
            r.len_left == slice.left_bytes@.len(),
            r.len_right == slice.right_bytes@.len(),
    {
        let mut bytes: Vec<u8> = vec![0u8; MAX];
        write_at(&mut bytes, 0, slice.left_chunk());
        write_at(&mut bytes, MAX - slice.right_chunk().len(), slice.right_chunk());
        let r = GapBuffer {
            bytes,
            len_left: slice.left_chunk().len(),
            line_breaks_left: slice.line_breaks_left,
            len_right: slice.right_chunk().len(),
        };
        proof {
            assert(r.left() =~= slice.left_bytes@);
            assert(r.right() =~= slice.right_bytes@);
        }
        r
    }

    /// Overflowing replacement when the kept prefix and the leftover tail
    /// both reach the rebalance minimum on their own: this buffer keeps
    /// `text[.. start]` and everything else goes to the extra leaves.
    #[verifier::rlimit(100)]
    fn replace_overflowing_plain(
        &mut self,
        start: usize,
        end: usize,
        s: &[u8],
        summary: ChunkSummary,
    ) -> (r: (ChunkSummary, Vec<Self>))
        requires
            old(self).wf(),
            MAX >= 4,
            start <= end <= old(self).spec_len(),
            is_char_boundary(old(self).text(), start as int),
            is_char_boundary(old(self).text(), end as int),
            is_utf8(s@),
            old(self).spec_len() - (end - start) + s@.len() > MAX,
            s@.len() + old(self).spec_len() <= usize::MAX,
            summary.summarizes(old(self).text()),
            start >= Self::spec_min_bytes(),
            s@.len() + (old(self).spec_len() - end) >= Self::spec_min_bytes(),
        ensures
            final(self).wf(),
            ({
                let t = old(self).text();
                final(self).text() + concat_of(crate::segmenter::texts_of(r.1@)) == t.take(
                    start as int,
                ) + s@ + t.skip(end as int)
            }),
            r.0.summarizes(final(self).text()),
            final(self).spec_len() >= Self::spec_chunk_min(),
            forall|i: int|
                0 <= i < r.1@.len() ==> (#[trigger] r.1@[i]).wf() && 0 < r.1@[i].spec_len() <= MAX
                    && r.1@[i].spec_len() >= Self::spec_chunk_min(),
    {
        let ghost t = old(self).text();
        let ghost tail = t.skip(end as int);
        let (extra_left, extra_right) = self.split_tail(end);
        let mut segs: Vec<&[u8]> = Vec::new();
        segs.push(s);
        segs.push(extra_left);
        segs.push(extra_right);
        proof {
            let cs = chunk_views(segs@);
            assert(cs =~= Seq::<Seq<u8>>::empty().push(s@).push(extra_left@).push(
                extra_right@,
            ));
            assert(concat_of(Seq::<Seq<u8>>::empty()) == Seq::<u8>::empty());
            crate::text::lemma_concat_of_push(Seq::<Seq<u8>>::empty(), s@);
            crate::text::lemma_concat_of_push(Seq::<Seq<u8>>::empty().push(s@), extra_left@);
            crate::text::lemma_concat_of_push(
                Seq::<Seq<u8>>::empty().push(s@).push(extra_left@),
                extra_right@,
            );
            assert(Seq::<u8>::empty() + s@ =~= s@);
            assert(concat_of(cs) == s@ + extra_left@ + extra_right@);
            assert(s@ + extra_left@ + extra_right@ =~= s@ + tail);
        }
        let mut resegmenter = crate::segmenter::Resegmenter::<MAX>::new(segs);
        let extras = resegmenter.collect_all();
        let new_summary = self.truncate_from_with_summary(start, summary);
        proof {
            assert(final(self).text() + concat_of(crate::segmenter::texts_of(extras@)) =~= t.take(
                start as int,
            ) + s@ + tail);
        }
        (new_summary, extras)
    }

    /// Overflowing replacement when the kept prefix `text[.. start]` alone
    /// would be underfilled: absorb enough of `s`, then of the tail, to
    /// reach the rebalance minimum, and reseed the rest as extra leaves.
    fn replace_overflowing_low_start(
        &mut self,
        start: usize,
        end: usize,
        s: &[u8],
        summary: ChunkSummary,
    ) -> (r: (ChunkSummary, Vec<Self>))
        requires
            old(self).wf(),
            MAX >= 4,
            start <= end <= old(self).spec_len(),
            is_char_boundary(old(self).text(), start as int),
            is_char_boundary(old(self).text(), end as int),
            is_utf8(s@),
            old(self).spec_len() - (end - start) + s@.len() > MAX,
            s@.len() + old(self).spec_len() <= usize::MAX,
            summary.summarizes(old(self).text()),
            start < Self::spec_min_bytes(),
        ensures
            final(self).wf(),
            ({
                let t = old(self).text();
                final(self).text() + concat_of(crate::segmenter::texts_of(r.1@)) == t.take(
                    start as int,
                ) + s@ + t.skip(end as int)
            }),
            r.0.summarizes(final(self).text()),
            final(self).spec_len() >= Self::spec_chunk_min(),
            forall|i: int|
                0 <= i < r.1@.len() ==> (#[trigger] r.1@[i]).wf() && 0 < r.1@[i].spec_len() <= MAX
                    && r.1@[i].spec_len() >= Self::spec_chunk_min(),
    {
        let extra_left_len = {
            let (extra_left, _extra_right) = self.split_tail(end);
            extra_left.len()
        };
        let missing = Self::min_bytes() - start;
        if s.len() >= missing {
            self.replace_overflowing_absorb_s(start, end, s, summary)
        } else if s.len() + extra_left_len >= missing {
            self.replace_overflowing_absorb_left(start, end, s, summary)
        } else {
            self.replace_overflowing_absorb_right(start, end, s, summary)
        }
    }

    /// The low-start case where `s` alone can refill this buffer.
    #[verifier::rlimit(100)]
    fn replace_overflowing_absorb_s(
        &mut self,
        start: usize,
        end: usize,
        s: &[u8],
        summary: ChunkSummary,
    ) -> (r: (ChunkSummary, Vec<Self>))
        requires
            old(self).wf(),
            MAX >= 4,
            start <= end <= old(self).spec_len(),
            is_char_boundary(old(self).text(), start as int),
            is_char_boundary(old(self).text(), end as int),
            is_utf8(s@),
            old(self).spec_len() - (end - start) + s@.len() > MAX,
            s@.len() + old(self).spec_len() <= usize::MAX,
            summary.summarizes(old(self).text()),
            start < Self::spec_min_bytes(),
            s@.len() >= Self::spec_min_bytes() - start,
        ensures
            final(self).wf(),
            ({
                let t = old(self).text();
                final(self).text() + concat_of(crate::segmenter::texts_of(r.1@)) == t.take(
                    start as int,
                ) + s@ + t.skip(end as int)
            }),
            r.0.summarizes(final(self).text()),
            final(self).spec_len() >= Self::spec_chunk_min(),
            forall|i: int|
                0 <= i < r.1@.len() ==> (#[trigger] r.1@[i]).wf() && 0 < r.1@[i].spec_len() <= MAX
                    && r.1@[i].spec_len() >= Self::spec_chunk_min(),
    {
        let ghost t = old(self).text();
        let ghost tail = t.skip(end as int);
        let (extra_left, extra_right) = self.split_tail(end);
        let missing = Self::min_bytes() - start;
        proof {
            crate::text::lemma_adjusted_boundaries(s@, missing as int);
        }
        let (replacement, rest_of_s) = split_adjusted::<true>(s, missing);
        let ghost a = next_boundary(s@, missing as int);
        let mut segs: Vec<&[u8]> = Vec::new();
        segs.push(rest_of_s);
        segs.push(extra_left);
        segs.push(extra_right);
        proof {
            let cs = chunk_views(segs@);
            assert(cs =~= Seq::<Seq<u8>>::empty().push(s@.skip(a)).push(extra_left@).push(
                extra_right@,
            ));
            assert(concat_of(Seq::<Seq<u8>>::empty()) == Seq::<u8>::empty());
            crate::text::lemma_concat_of_push(Seq::<Seq<u8>>::empty(), s@.skip(a));
            crate::text::lemma_concat_of_push(
                Seq::<Seq<u8>>::empty().push(s@.skip(a)),
                extra_left@,
            );
            crate::text::lemma_concat_of_push(
                Seq::<Seq<u8>>::empty().push(s@.skip(a)).push(extra_left@),
                extra_right@,
            );
            assert(Seq::<u8>::empty() + s@.skip(a) =~= s@.skip(a));
            assert(concat_of(cs) =~= s@.skip(a) + tail);
        }
        let mut resegmenter = crate::segmenter::Resegmenter::<MAX>::new(segs);
        let extras = resegmenter.collect_all();
        let summary2 = self.truncate_from_with_summary(end, summary);
        proof {
            crate::text::lemma_take_boundary(t, end as int, start as int);
            crate::text::lemma_take_boundary(t, end as int, end as int);
        }
        let new_summary = self.replace_non_overflowing(start, end, replacement, summary2);
        proof {
            assert(t.take(end as int).take(start as int) =~= t.take(start as int));
            assert(t.take(end as int).skip(end as int) =~= Seq::<u8>::empty());
            assert(final(self).text() =~= t.take(start as int) + s@.take(a));
            assert(s@.take(a) + s@.skip(a) =~= s@);
            assert(final(self).text() + concat_of(crate::segmenter::texts_of(extras@)) =~= t.take(
                start as int,
            ) + s@ + tail);
        }
        (new_summary, extras)
    }

    /// The low-start case where `s` and the left part of the tail refill
    /// this buffer.
    #[verifier::rlimit(100)]
    fn replace_overflowing_absorb_left(
        &mut self,
        start: usize,
        end: usize,
        s: &[u8],
        summary: ChunkSummary,
    ) -> (r: (ChunkSummary, Vec<Self>))
        requires
            old(self).wf(),
            MAX >= 4,
            start <= end <= old(self).spec_len(),
            is_char_boundary(old(self).text(), start as int),
            is_char_boundary(old(self).text(), end as int),
            is_utf8(s@),
            old(self).spec_len() - (end - start) + s@.len() > MAX,
            s@.len() + old(self).spec_len() <= usize::MAX,
            summary.summarizes(old(self).text()),
            start < Self::spec_min_bytes(),
            s@.len() < Self::spec_min_bytes() - start,
            ({
                let el_len = if end <= old(self).len_left {
                    old(self).len_left - end
                } else {
                    0int
                };
                s@.len() + el_len >= Self::spec_min_bytes() - start
            }),
        ensures
            final(self).wf(),
            ({
                let t = old(self).text();
                final(self).text() + concat_of(crate::segmenter::texts_of(r.1@)) == t.take(
                    start as int,
                ) + s@ + t.skip(end as int)
            }),
            r.0.summarizes(final(self).text()),
            final(self).spec_len() >= Self::spec_chunk_min(),
            forall|i: int|
                0 <= i < r.1@.len() ==> (#[trigger] r.1@[i]).wf() && 0 < r.1@[i].spec_len() <= MAX
                    && r.1@[i].spec_len() >= Self::spec_chunk_min(),
    {
        let ghost t = old(self).text();
        let ghost tail = t.skip(end as int);
        let (extra_left, extra_right) = self.split_tail(end);
        let missing = Self::min_bytes() - start;
        let missing2 = missing - s.len();
        proof {
            crate::text::lemma_adjusted_boundaries(extra_left@, missing2 as int);
        }
        let (kept, rest_el) = split_adjusted::<true>(extra_left, missing2);
        let ghost c = next_boundary(extra_left@, missing2 as int);
        let mut segs: Vec<&[u8]> = Vec::new();
        segs.push(rest_el);
        segs.push(extra_right);
        proof {
            let cs = chunk_views(segs@);
            assert(cs =~= Seq::<Seq<u8>>::empty().push(extra_left@.skip(c)).push(
                extra_right@,
            ));
            assert(concat_of(Seq::<Seq<u8>>::empty()) == Seq::<u8>::empty());
            crate::text::lemma_concat_of_push(Seq::<Seq<u8>>::empty(), extra_left@.skip(c));
            crate::text::lemma_concat_of_push(
                Seq::<Seq<u8>>::empty().push(extra_left@.skip(c)),
                extra_right@,
            );
            assert(Seq::<u8>::empty() + extra_left@.skip(c) =~= extra_left@.skip(c));
            assert(concat_of(cs) == extra_left@.skip(c) + extra_right@);
        }
        let mut resegmenter = crate::segmenter::Resegmenter::<MAX>::new(segs);
        let extras = resegmenter.collect_all();
        let truncate_from = end + kept.len();
        proof {
            crate::text::lemma_boundary_concat(extra_left@, extra_right@, c);
            assert(tail =~= extra_left@ + extra_right@);
            crate::text::lemma_skip_boundary(t, end as int, c);
            crate::text::lemma_take_boundary(t, end + c, start as int);
            crate::text::lemma_take_boundary(t, end + c, end as int);
        }
        let summary2 = self.truncate_from_with_summary(truncate_from, summary);
        let new_summary = self.replace_non_overflowing(start, end, s, summary2);
        proof {
            assert(t.take(end + c).take(start as int) =~= t.take(start as int));
            assert(t.take(end + c).skip(end as int) =~= extra_left@.take(c));
            assert(final(self).text() =~= t.take(start as int) + s@ + extra_left@.take(c));
            assert(extra_left@.take(c) + extra_left@.skip(c) =~= extra_left@);
            assert(final(self).text() + concat_of(crate::segmenter::texts_of(extras@)) =~= t.take(
                start as int,
            ) + s@ + tail);
        }
        (new_summary, extras)
    }

    /// The low-start case where the right part of the tail is needed to
    /// refill this buffer.
    #[verifier::rlimit(100)]
    fn replace_overflowing_absorb_right(
        &mut self,
        start: usize,
        end: usize,
        s: &[u8],
        summary: ChunkSummary,
    ) -> (r: (ChunkSummary, Vec<Self>))
        requires
            old(self).wf(),
            MAX >= 4,
            start <= end <= old(self).spec_len(),
            is_char_boundary(old(self).text(), start as int),
            is_char_boundary(old(self).text(), end as int),
            is_utf8(s@),
            old(self).spec_len() - (end - start) + s@.len() > MAX,
            s@.len() + old(self).spec_len() <= usize::MAX,
            summary.summarizes(old(self).text()),
            start < Self::spec_min_bytes(),
            ({
                let el_len = if end <= old(self).len_left {
                    old(self).len_left - end
                } else {
                    0int
                };
                s@.len() + el_len < Self::spec_min_bytes() - start
            }),
        ensures
            final(self).wf(),
            ({
                let t = old(self).text();
                final(self).text() + concat_of(crate::segmenter::texts_of(r.1@)) == t.take(
                    start as int,
                ) + s@ + t.skip(end as int)
            }),
            r.0.summarizes(final(self).text()),
            final(self).spec_len() >= Self::spec_chunk_min(),
            forall|i: int|
                0 <= i < r.1@.len() ==> (#[trigger] r.1@[i]).wf() && 0 < r.1@[i].spec_len() <= MAX
                    && r.1@[i].spec_len() >= Self::spec_chunk_min(),
    {
        let ghost t = old(self).text();
        let ghost tail = t.skip(end as int);
        let (extra_left, extra_right) = self.split_tail(end);
        let missing = Self::min_bytes() - start;
        let missing3 = missing - s.len() - extra_left.len();
        proof {
            assert(tail =~= extra_left@ + extra_right@);
            assert(missing3 <= extra_right@.len());
            crate::text::lemma_adjusted_boundaries(extra_right@, missing3 as int);
        }
        let (kept, rest_er) = split_adjusted::<true>(extra_right, missing3);
        let ghost c3 = next_boundary(extra_right@, missing3 as int);
        let mut segs: Vec<&[u8]> = Vec::new();
        segs.push(rest_er);
        proof {
            let cs = chunk_views(segs@);
            assert(cs =~= Seq::<Seq<u8>>::empty().push(extra_right@.skip(c3)));
            assert(concat_of(Seq::<Seq<u8>>::empty()) == Seq::<u8>::empty());
            crate::text::lemma_concat_of_push(Seq::<Seq<u8>>::empty(), extra_right@.skip(c3));
            assert(concat_of(cs) =~= extra_right@.skip(c3));
        }
        let mut resegmenter = crate::segmenter::Resegmenter::<MAX>::new(segs);
        let extras = resegmenter.collect_all();
        let truncate_from = end + extra_left.len() + kept.len();
        let ghost c = extra_left@.len() + c3;
        proof {
            if c3 < extra_right@.len() {
                assert((extra_left@ + extra_right@)[c] == extra_right@[c3]);
            }
            assert(is_char_boundary(extra_left@ + extra_right@, c));
            assert(tail =~= extra_left@ + extra_right@);
            crate::text::lemma_skip_boundary(t, end as int, c);
            crate::text::lemma_take_boundary(t, end + c, start as int);
            crate::text::lemma_take_boundary(t, end + c, end as int);
        }
        let summary2 = self.truncate_from_with_summary(truncate_from, summary);
        let new_summary = self.replace_non_overflowing(start, end, s, summary2);
        proof {
            lemma_recombine_right(
                t,
                s@,
                extra_left@,
                extra_right@,
                final(self).text(),
                concat_of(crate::segmenter::texts_of(extras@)),
                start as int,
                end as int,
                c3,
            );
        }
        (new_summary, extras)
    }

    /// The text before `start`, split on this buffer's own segment
    /// boundary: what the left segment holds below `start`, then what the
    /// right segment holds below it.
    fn split_head(&self, start: usize) -> (r: (&[u8], &[u8]))
        requires
            self.wf(),
            start <= self.spec_len(),
        ensures
            r.0@ + r.1@ == self.text().take(start as int),
            r.1@ == (if start <= self.len_left {
                Seq::<u8>::empty()
            } else {
                self.right().take(start - self.len_left)
            }),
            is_char_boundary(self.text(), start as int) ==> is_utf8(r.0@) && is_utf8(r.1@),
    {
        if start <= self.len_left {
            let r = (
                slice_subrange(self.left_chunk(), 0, start),
                slice_subrange(self.right_chunk(), 0, 0),
            );
            proof {
                assert(r.1@ =~= Seq::<u8>::empty());
                if is_char_boundary(self.text(), start as int) {
                    assert(is_char_boundary(self.left(), start as int));
                    lemma_utf8_split(self.left(), start as int);
                }
                assert(r.0@ + r.1@ =~= self.text().take(start as int));
            }
            r
        } else {
            let r = (
                self.left_chunk(),
                slice_subrange(self.right_chunk(), 0, start - self.len_left),
            );
            proof {
                if is_char_boundary(self.text(), start as int) {
                    assert(start == self.spec_len() || self.text()[start as int] == self.right()[
                        start - self.len_left]);
                    lemma_utf8_split(self.right(), start - self.len_left);
                }
                assert(r.0@ + r.1@ =~= self.text().take(start as int));
            }
            r
        }
    }

    /// Chooses how much of `text[.. start]` to keep when `missing` more
    /// bytes must go to the extra leaves, cutting at a code-point boundary
    /// on this buffer's own segment boundary; returns the cut offset and
    /// the two pieces handed over.
    #[verifier::rlimit(100)]
    fn short_tail_cut(&self, start: usize, missing: usize) -> (r: (usize, &[u8], &[u8]))
        requires
            self.wf(),
            start <= self.spec_len(),
            is_char_boundary(self.text(), start as int),
            0 < missing <= start,
        ensures
            ({
                let (tf, a1, a2) = r;
                let head = self.text().take(start as int);
                &&& tf <= start
                &&& start - tf <= missing
                &&& start - tf >= missing - 3
                &&& a1@ + a2@ == head.skip(tf as int)
                &&& is_utf8(a1@)
                &&& is_utf8(a2@)
                &&& is_char_boundary(self.text(), tf as int)
            }),
    {
        let ghost t = self.text();
        let ghost head = t.take(start as int);
        let (new_left, new_right) = self.split_head(start);
        proof {
            assert(head =~= new_left@ + new_right@);
            assert(head.len() == start);
            assert((new_left@ + new_right@).len() == new_left@.len() + new_right@.len());
        }
        if missing <= new_right.len() {
            proof {
                crate::text::lemma_adjusted_boundaries(
                    new_right@,
                    new_right@.len() - missing as int,
                );
            }
            let (keep_in_self, add_to_extras) = split_adjusted::<true>(
                new_right,
                new_right.len() - missing,
            );
            let ghost kn = next_boundary(new_right@, new_right@.len() - missing as int);
            let tf = new_left.len() + keep_in_self.len();
            proof {
                if kn < new_right@.len() {
                    assert((new_left@ + new_right@)[new_left@.len() + kn] == new_right@[kn]);
                }
                assert(is_char_boundary(head, new_left@.len() + kn));
                crate::text::lemma_take_boundary_rev(t, start as int, tf as int);
                assert(head.skip(tf as int) =~= new_right@.skip(kn));
            }
            (tf, slice_subrange(new_right, 0, 0), add_to_extras)
        } else {
            let missing2 = missing - new_right.len();
            proof {
                assert(missing2 <= new_left@.len());
                crate::text::lemma_adjusted_boundaries(
                    new_left@,
                    new_left@.len() - missing2 as int,
                );
            }
            let (keep_in_self, add_to_extras) = split_adjusted::<true>(
                new_left,
                new_left.len() - missing2,
            );
            let ghost kl = next_boundary(new_left@, new_left@.len() - missing2 as int);
            let tf = keep_in_self.len();
            proof {
                crate::text::lemma_boundary_concat(new_left@, new_right@, kl);
                assert(is_char_boundary(head, kl));
                crate::text::lemma_take_boundary_rev(t, start as int, tf as int);
                assert(head.skip(tf as int) =~= new_left@.skip(kl) + new_right@);
            }
            (tf, add_to_extras, new_right)
        }
    }

    /// Overflowing replacement when the replacement and the leftover tail
    /// together would leave the last emitted leaf underfilled: keep less
    /// of the prefix, pushing the difference into the extra leaves.
    #[verifier::rlimit(100)]
    fn replace_overflowing_short_tail(
        &mut self,
        start: usize,
        end: usize,
        s: &[u8],
        summary: ChunkSummary,
    ) -> (r: (ChunkSummary, Vec<Self>))
        requires
            old(self).wf(),
            MAX >= 4,
            start <= end <= old(self).spec_len(),
            is_char_boundary(old(self).text(), start as int),
            is_char_boundary(old(self).text(), end as int),
            is_utf8(s@),
            old(self).spec_len() - (end - start) + s@.len() > MAX,
            s@.len() + old(self).spec_len() <= usize::MAX,
            summary.summarizes(old(self).text()),
            s@.len() + (old(self).spec_len() - end) < Self::spec_min_bytes(),
        ensures
            final(self).wf(),
            ({
                let t = old(self).text();
                final(self).text() + concat_of(crate::segmenter::texts_of(r.1@)) == t.take(
                    start as int,
                ) + s@ + t.skip(end as int)
            }),
            r.0.summarizes(final(self).text()),
            final(self).spec_len() >= Self::spec_chunk_min(),
            forall|i: int|
                0 <= i < r.1@.len() ==> (#[trigger] r.1@[i]).wf() && 0 < r.1@[i].spec_len() <= MAX
                    && r.1@[i].spec_len() >= Self::spec_chunk_min(),
    {
        let ghost t = old(self).text();
        let ghost tail = t.skip(end as int);
        let ghost head = t.take(start as int);
        let (extra_left, extra_right) = self.split_tail(end);
        let missing = Self::min_bytes() - s.len() - (self.len() - end);
        let (truncate_from, add_to_extras_1, add_to_extras_2) = self.short_tail_cut(
            start,
            missing,
        );
        let ghost tf = truncate_from as int;
        let mut segs: Vec<&[u8]> = Vec::new();
        segs.push(add_to_extras_1);
        segs.push(add_to_extras_2);
        segs.push(s);
        segs.push(extra_left);
        segs.push(extra_right);
        proof {
            let cs = chunk_views(segs@);
            assert(cs =~= seq![
                add_to_extras_1@,
                add_to_extras_2@,
                s@,
                extra_left@,
                extra_right@,
            ]);
            crate::text::lemma_concat_of_five(
                add_to_extras_1@,
                add_to_extras_2@,
                s@,
                extra_left@,
                extra_right@,
            );
            assert(concat_of(cs) =~= head.skip(tf) + s@ + tail);
        }
        let mut resegmenter = crate::segmenter::Resegmenter::<MAX>::new(segs);
        let extras = resegmenter.collect_all();
        let new_summary = self.truncate_from_with_summary(truncate_from, summary);
        proof {
            assert(final(self).text() =~= head.take(tf));
            assert(head.take(tf) + head.skip(tf) =~= head);
            assert(final(self).text() + concat_of(crate::segmenter::texts_of(extras@)) =~= head
                + s@ + tail);
        }
        (new_summary, extras)
    }

    /// Replaces `text[start .. end]` with `s` when the result no longer
    /// fits in this buffer: the buffer keeps a prefix of the result (at
    /// least `chunk_min`, refilled up to the rebalance minimum when the
    /// kept prefix would be too small) and the rest comes back as extra
    /// leaves, each between `chunk_min` and `MAX` bytes. Returns the new
    /// summary of this buffer and those leaves; concatenating this
    /// buffer's text with theirs gives exactly the replacement result.
    pub fn replace_overflowing(
        &mut self,
        start: usize,
        end: usize,
        s: &[u8],
        summary: ChunkSummary,
    ) -> (r: (ChunkSummary, Vec<Self>))
        requires
            old(self).wf(),
            MAX >= 4,
            start <= end <= old(self).spec_len(),
            is_char_boundary(old(self).text(), start as int),
            is_char_boundary(old(self).text(), end as int),
            is_utf8(s@),
            old(self).spec_len() - (end - start) + s@.len() > MAX,
            s@.len() + old(self).spec_len() <= usize::MAX,
            summary.summarizes(old(self).text()),
        ensures
            final(self).wf(),
            ({
                let t = old(self).text();
                final(self).text() + concat_of(crate::segmenter::texts_of(r.1@)) == t.take(
                    start as int,
                ) + s@ + t.skip(end as int)
            }),
            r.0.summarizes(final(self).text()),
            final(self).spec_len() >= Self::spec_chunk_min(),
            forall|i: int|
                0 <= i < r.1@.len() ==> (#[trigger] r.1@[i]).wf() && 0 < r.1@[i].spec_len() <= MAX
                    && r.1@[i].spec_len() >= Self::spec_chunk_min(),
    {
        if start < Self::min_bytes() {
            self.replace_overflowing_low_start(start, end, s, summary)
        } else if s.len() + (self.len() - end) < Self::min_bytes() {
            self.replace_overflowing_short_tail(start, end, s, summary)
        } else {
            self.replace_overflowing_plain(start, end, s, summary)
        }
    }

    /// Replaces `text[start .. end]` with `replacement`, updating
    /// `summary` (which must be, and stays, the exact summary of this
    /// buffer's text). When the result fits it is applied in place and
    /// `None` comes back; otherwise the overflow is returned as extra
    /// leaves. With `small_chunks` set, an overflow that produced no
    /// extra leaves also comes back as `None`.
    pub fn replace(
        &mut self,
        summary: &mut ChunkSummary,
        start: usize,
        end: usize,
        replacement: &[u8],
        small_chunks: bool,
    ) -> (r: Option<Vec<Self>>)
        requires
            old(self).wf(),
            MAX >= 4,
            start <= end <= old(self).spec_len(),
            is_char_boundary(old(self).text(), start as int),
            is_char_boundary(old(self).text(), end as int),
            is_utf8(replacement@),
            replacement@.len() + old(self).spec_len() <= usize::MAX,
            old(summary).summarizes(old(self).text()),
        ensures
            final(self).wf(),
            final(summary).summarizes(final(self).text()),
            ({
                let t = old(self).text();
                let target = t.take(start as int) + replacement@ + t.skip(end as int);
                &&& (r is None ==> final(self).text() == target)
                &&& (r matches Some(extras) ==> (small_chunks ==> extras@.len() > 0))
                &&& (r matches Some(extras) ==> final(self).text() + concat_of(
                    crate::segmenter::texts_of(extras@),
                ) == target)
                &&& (r matches Some(extras) ==> forall|i: int|
                    0 <= i < extras@.len() ==> (#[trigger] extras@[i]).wf() && 0
                        < extras@[i].spec_len() <= MAX && extras@[i].spec_len()
                        >= Self::spec_chunk_min())
            }),
            old(self).spec_len() - (end - start) + replacement@.len() <= MAX ==> r is None,
            old(self).spec_len() - (end - start) + replacement@.len() > MAX && !small_chunks
                ==> r is Some,
    {
        let removed = end - start;
        let fits = replacement.len() <= MAX - (self.len() - removed);
        if fits {
            let new_summary = if end > start {
                self.replace_non_overflowing(start, end, replacement, *summary)
            } else {
                proof {
                    assert(old(self).text().skip(start as int) == old(self).text().skip(
                        end as int,
                    ));
                }
                self.insert(start, replacement, *summary)
            };
            *summary = new_summary;
            None
        } else {
            let (new_summary, extras) = self.replace_overflowing(start, end, replacement, *summary);
            *summary = new_summary;
            if small_chunks && extras.len() == 0 {
                proof {
                    assert(crate::segmenter::texts_of(extras@) =~= Seq::<Seq<u8>>::empty());
                    assert(final(self).text() + concat_of(crate::segmenter::texts_of(extras@))
                        =~= final(self).text());
                }
                None
            } else {
                Some(extras)
            }
        }
    }

    /// The invariants of a well-formed buffer, as one statement: the
    /// cached count equals the line breaks of the left segment, the two
    /// segments fit in the capacity, and each segment, as well as the
    /// whole stored text, is valid UTF-8.
    pub proof fn lemma_invariants(&self)
        requires
            self.wf(),
        ensures
            self.line_breaks_left == line_breaks(self.left()),
            self.len_left + self.len_right <= MAX,
            is_utf8(self.left()),
            is_utf8(self.right()),
            is_utf8(self.text()),
    {
        lemma_utf8_concat(self.left(), self.right());
    }

    /// The text at and after `end`, split on this buffer's own segment
    /// boundary: what the left segment holds past `end`, then what the
    /// right segment holds past it.
    fn split_tail(&self, end: usize) -> (r: (&[u8], &[u8]))
        requires
            self.wf(),
            end <= self.spec_len(),
        ensures
            r.0@ + r.1@ == self.text().skip(end as int),
            r.0@ == (if end <= self.len_left {
                self.left().skip(end as int)
            } else {
                Seq::<u8>::empty()
            }),
            is_char_boundary(self.text(), end as int) ==> is_utf8(r.0@) && is_utf8(r.1@)
                && is_utf8(self.text().skip(end as int)),
    {
        proof {
            if is_char_boundary(self.text(), end as int) {
                lemma_utf8_concat(self.left(), self.right());
                lemma_utf8_split(self.text(), end as int);
            }
        }
        if end <= self.len_left {
            let r = (
                slice_subrange(self.left_chunk(), end, self.len_left),
                self.right_chunk(),
            );
            proof {
                if is_char_boundary(self.text(), end as int) {
                    assert(is_char_boundary(self.left(), end as int));
                    lemma_utf8_split(self.left(), end as int);
                }
                assert(r.0@ =~= self.left().skip(end as int));
                assert(r.0@ + r.1@ =~= self.text().skip(end as int));
            }
            r
        } else {
            let r = (
                slice_subrange(self.right_chunk(), 0, 0),
                slice_subrange(self.right_chunk(), end - self.len_left, self.len_right),
            );
            proof {
                assert(r.0@ =~= Seq::<u8>::empty());
                if is_char_boundary(self.text(), end as int) {
                    assert(end == self.spec_len() || self.text()[end as int] == self.right()[end
                        - self.len_left]);
                    lemma_utf8_split(self.right(), end - self.len_left);
                }
                assert(r.0@ + r.1@ =~= self.text().skip(end as int));
            }
            r
        }
    }
}

} // verus!
