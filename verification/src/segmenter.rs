//! Cutting long texts into leaf-sized pieces. `Segmenter` walks one byte
//! string and yields slices of it; `Resegmenter` walks several strings as
//! if concatenated and yields packed buffers. Both keep every piece at or
//! above `chunk_min` (a short total input is the one exception, yielded as
//! a single piece) and cut only at code-point boundaries.

use crate::gap_buffer::GapBuffer;
use crate::text::adjust_split_point;
use crate::text::chunk_views;
use crate::text::concat_of;
use crate::text::is_char_boundary;
use crate::text::is_utf8;
use crate::text::lemma_adjusted_boundaries;
use crate::text::lemma_utf8_split;
use crate::text::next_boundary;
use crate::text::prev_boundary;
use vstd::prelude::*;
use vstd::slice::slice_subrange;

verus! {

/// Length of the piece a segmenter over `s` with `yielded` bytes already
/// given out yields next: the whole remainder when it fits in one leaf;
/// otherwise a target of `max` bytes, lowered so the rest can still reach
/// the rebalance minimum, then adjusted down to a code-point boundary, or
/// up when down would yield nothing.
pub open spec fn seg_next_len(s: Seq<u8>, yielded: int, max: int) -> int {
    let remaining = s.len() - yielded;
    if remaining <= max {
        remaining
    } else {
        let min = max / 4;
        let chunk_len = if remaining - max >= min {
            max
        } else {
            remaining - min
        };
        let down = prev_boundary(s.skip(yielded), chunk_len);
        if down == 0 {
            next_boundary(s.skip(yielded), chunk_len)
        } else {
            down
        }
    }
}

/// Resegmenter and segmenter agree, element for element: a segmenter that
/// has handed out `yielded` bytes of `s` cuts its next piece exactly where
/// a resegmenter whose remaining text is `s.skip(yielded)` cuts its next
/// buffer, so the two yield the same contents step for step. Each
/// `Resegmenter::next` states its cut over its remaining text; this
/// carries it over to the segmenter's position in the whole input.
pub proof fn lemma_resegmenter_agrees_with_segmenter(s: Seq<u8>, yielded: int, max: int)
    requires
        0 <= yielded <= s.len(),
    ensures
        seg_next_len(s, yielded, max) == seg_next_len(s.skip(yielded), 0, max),
{
    assert(s.skip(yielded).skip(0) =~= s.skip(yielded));
}

/// Yields successive pieces of one byte string, each cut at a code-point
/// boundary and all but possibly the last at least `chunk_min` long.
pub struct Segmenter<'a, const MAX: usize> {
    pub s: &'a [u8],
    pub yielded: usize,
}

impl<'a, const MAX: usize> Segmenter<'a, MAX> {
    /// What an in-flight segmenter maintains: the input is valid UTF-8,
    /// the cursor sits on a code-point boundary, and after the first piece
    /// the remainder is empty or can still form a legal leaf.
    pub open spec fn wf(&self) -> bool {
        &&& MAX >= 4
        &&& is_utf8(self.s@)
        &&& self.yielded <= self.s@.len()
        &&& is_char_boundary(self.s@, self.yielded as int)
        &&& (self.yielded == 0 || self.s@.len() == self.yielded || self.s@.len() - self.yielded
            >= GapBuffer::<MAX>::spec_chunk_min())
    }

    /// The next piece: `None` once the input is exhausted, otherwise the
    /// slice `s[yielded .. yielded + seg_next_len(..)]`.
    pub fn next(&mut self) -> (r: Option<&'a [u8]>)
        requires
            old(self).wf(),
        ensures
            final(self).wf(),
            final(self).s == old(self).s,
            old(self).yielded == old(self).s@.len() ==> r is None && final(self).yielded == old(
                self,
            ).yielded,
            old(self).yielded < old(self).s@.len() ==> ({
                &&& r is Some
                &&& final(self).yielded == old(self).yielded + seg_next_len(
                    old(self).s@,
                    old(self).yielded as int,
                    MAX as int,
                )
                &&& old(self).yielded < final(self).yielded <= old(self).s@.len()
                &&& (r->Some_0)@ == old(self).s@.subrange(
                    old(self).yielded as int,
                    final(self).yielded as int,
                )
            }),
    {
        let s = self.s;
        let remaining = s.len() - self.yielded;
        if remaining == 0 {
            None
        } else if remaining > MAX {
            let min = GapBuffer::<MAX>::min_bytes();
            let chunk_len = if remaining - MAX >= min {
                MAX
            } else {
                remaining - min
            };
            let rest = slice_subrange(s, self.yielded, s.len());
            proof {
                lemma_utf8_split(s@, self.yielded as int);
                lemma_adjusted_boundaries(rest@, chunk_len as int);
            }
            let mut adjusted_len = adjust_split_point::<false>(rest, chunk_len);
            if adjusted_len == 0 {
                adjusted_len = adjust_split_point::<true>(rest, chunk_len);
            }
            let piece = slice_subrange(rest, 0, adjusted_len);
            proof {
                if adjusted_len < rest@.len() {
                    assert(s@[self.yielded + adjusted_len] == rest@[adjusted_len as int]);
                }
                assert(is_char_boundary(s@, self.yielded + adjusted_len));
                assert(piece@ =~= s@.subrange(
                    self.yielded as int,
                    self.yielded + adjusted_len,
                ));
            }
            self.yielded = self.yielded + adjusted_len;
            Some(piece)
        } else {
            let piece = slice_subrange(s, self.yielded, s.len());
            proof {
                assert(piece@ =~= s@.subrange(self.yielded as int, s@.len() as int));
            }
            self.yielded = s.len();
            Some(piece)
        }
    }

    /// Yields everything left, as one list of pieces. Concatenating them
    /// restores the unsegmented remainder of the input byte for byte; on a
    /// fresh segmenter, the whole input.
    pub fn collect_all(&mut self) -> (r: Vec<&'a [u8]>)
        requires
            old(self).wf(),
        ensures
            final(self).wf(),
            final(self).s == old(self).s,
            final(self).yielded == old(self).s@.len(),
            concat_of(chunk_views(r@)) == old(self).s@.skip(old(self).yielded as int),
    {
        let ghost s = old(self).s@;
        let ghost start: int = old(self).yielded as int;
        let mut acc: Vec<&'a [u8]> = Vec::new();
        proof {
            assert(chunk_views(acc@) =~= Seq::<Seq<u8>>::empty());
            assert(concat_of(chunk_views(acc@)) =~= s.subrange(start, start));
        }
        loop
            invariant
                self.wf(),
                self.s == old(self).s,
                s == old(self).s@,
                0 <= start,
                start <= self.yielded <= s.len(),
                concat_of(chunk_views(acc@)) == s.subrange(start, self.yielded as int),
            ensures
                self.wf(),
                self.s == old(self).s,
                self.yielded == s.len(),
                concat_of(chunk_views(acc@)) == s.subrange(start, s.len() as int),
            decreases s.len() - self.yielded,
        {
            let ghost yielded_before: int = self.yielded as int;
            let piece_opt = self.next();
            match piece_opt {
                None => {
                    break ;
                },
                Some(piece) => {
                    proof {
                        assert(chunk_views(acc@.push(piece)) =~= chunk_views(acc@).push(piece@));
                        chunk_views(acc@).lemma_flatten_push(piece@);
                        assert(s.subrange(start, yielded_before) + s.subrange(
                            yielded_before,
                            self.yielded as int,
                        ) =~= s.subrange(start, self.yielded as int));
                    }
                    acc.push(piece);
                },
            }
        }
        proof {
            assert(s.subrange(start, s.len() as int) =~= s.skip(start));
        }
        acc
    }
}

impl<const MAX: usize> GapBuffer<MAX> {
    /// A segmenter over `s`, positioned at its start.
    pub fn segmenter(s: &[u8]) -> (r: Segmenter<'_, MAX>)
        requires
            MAX >= 4,
            is_utf8(s@),
        ensures
            r.wf(),
            r.s@ == s@,
            r.yielded == 0,
    {
        proof {
            crate::text::lemma_utf8_first_byte(s@);
        }
        Segmenter { s, yielded: 0 }
    }
}

/// The stored texts of a list of buffers.
pub open spec fn texts_of<const MAX: usize>(bufs: Seq<GapBuffer<MAX>>) -> Seq<Seq<u8>> {
    bufs.map_values(|b: GapBuffer<MAX>| b.text())
}

/// Walks a list of byte strings as if they were one concatenated text and
/// yields packed buffers, each holding between `chunk_min` and `MAX`
/// bytes (a short total input is yielded as one buffer). Concatenating
/// the yielded buffers restores the concatenated input byte for byte.
pub struct Resegmenter<'a, const MAX: usize> {
    pub segments: Vec<&'a [u8]>,
    pub start: usize,
    pub yielded: usize,
    pub total: usize,
}

impl<'a, const MAX: usize> Resegmenter<'a, MAX> {
    /// The views of the segments not yet fully consumed.
    pub open spec fn remaining_views(&self) -> Seq<Seq<u8>> {
        chunk_views(self.segments@.skip(self.start as int))
    }

    /// The text not yet handed out.
    pub open spec fn remaining_text(&self) -> Seq<u8> {
        concat_of(self.remaining_views())
    }

    /// What an in-flight resegmenter maintains: the pending segments are
    /// valid UTF-8, the byte counts agree, and what remains is empty or
    /// still enough for a legal leaf.
    pub open spec fn wf(&self) -> bool {
        &&& MAX >= 4
        &&& self.start <= self.segments@.len()
        &&& forall|j: int|
            self.start <= j < self.segments@.len() ==> is_utf8(#[trigger] self.segments@[j]@)
        &&& self.yielded + self.remaining_text().len() == self.total
        &&& (self.remaining_text().len() == 0 || self.remaining_text().len()
            >= GapBuffer::<MAX>::spec_chunk_min())
    }

    /// A resegmenter over `segments`, whose total length must reach
    /// `chunk_min` (and fit the machine).
    pub fn new(segments: Vec<&'a [u8]>) -> (r: Self)
        requires
            MAX >= 4,
            forall|j: int| 0 <= j < segments@.len() ==> is_utf8(#[trigger] segments@[j]@),
            concat_of(chunk_views(segments@)).len() >= GapBuffer::<MAX>::spec_chunk_min(),
            concat_of(chunk_views(segments@)).len() <= usize::MAX,
        ensures
            r.wf(),
            r.yielded == 0,
            r.remaining_text() == concat_of(chunk_views(segments@)),
            r.total == concat_of(chunk_views(segments@)).len(),
    {
        let ghost cs = chunk_views(segments@);
        let mut total: usize = 0;
        let mut i: usize = 0;
        proof {
            assert(concat_of(cs.take(0)) =~= Seq::<u8>::empty());
        }
        while i < segments.len()
            invariant
                i <= segments@.len(),
                cs == chunk_views(segments@),
                concat_of(cs).len() <= usize::MAX,
                total == concat_of(cs.take(i as int)).len(),
            decreases segments@.len() - i,
        {
            proof {
                crate::text::lemma_concat_of_take_next(cs, i as int);
                crate::text::lemma_concat_of_split(cs, i + 1);
            }
            total = total + segments[i].len();
            i = i + 1;
        }
        proof {
            assert(cs.take(segments@.len() as int) =~= cs);
        }
        let r = Resegmenter { segments, start: 0, yielded: 0, total };
        proof {
            assert(r.segments@.skip(0) =~= r.segments@);
        }
        r
    }

    /// The pending segments `segments[from .. upto]`, copied into a list.
    fn collect_segments(&self, from: usize, upto: usize) -> (r: Vec<&'a [u8]>)
        requires
            from <= upto <= self.segments@.len(),
        ensures
            r@ == self.segments@.subrange(from as int, upto as int),
    {
        let mut sub: Vec<&'a [u8]> = Vec::new();
        let mut j = from;
        while j < upto
            invariant
                from <= j <= upto <= self.segments@.len(),
                sub@ == self.segments@.subrange(from as int, j as int),
            decreases upto - j,
        {
            sub.push(self.segments[j]);
            j = j + 1;
        }
        sub
    }

    /// Scans whole pending segments while the next one still fits in a
    /// buffer and leaves at least `min_bytes` behind, returning how many
    /// segments were taken and their combined byte length.
    fn scan_whole_segments(&self, remaining: usize) -> (r: (usize, usize))
        requires
            self.wf(),
            remaining == self.remaining_text().len(),
            remaining > MAX,
        ensures
            ({
                let (idx_last, bytes_in_next) = r;
                let rv = self.remaining_views();
                &&& self.start <= idx_last < self.segments@.len()
                &&& bytes_in_next == concat_of(rv.take(idx_last - self.start)).len()
                &&& bytes_in_next <= MAX
                &&& remaining - bytes_in_next >= GapBuffer::<MAX>::spec_min_bytes()
                &&& (bytes_in_next + self.segments@[idx_last as int]@.len() > MAX || remaining
                    - bytes_in_next - self.segments@[idx_last as int]@.len()
                    < GapBuffer::<MAX>::spec_min_bytes())
            }),
    {
        let ghost rv = self.remaining_views();
        let min_bytes = GapBuffer::<MAX>::min_bytes();
        let st = self.start;
        let mut idx_last = st;
        let mut bytes_in_next: usize = 0;
        proof {
            assert(concat_of(rv.take(0)) =~= Seq::<u8>::empty());
        }
        loop
            invariant_except_break
                self.wf(),
                rv == self.remaining_views(),
                remaining == self.remaining_text().len(),
                remaining > MAX,
                min_bytes == GapBuffer::<MAX>::spec_min_bytes(),
                st == self.start,
                st <= idx_last <= self.segments@.len(),
                bytes_in_next == concat_of(rv.take(idx_last - st)).len(),
                bytes_in_next <= MAX,
                remaining - bytes_in_next >= min_bytes,
            ensures
                st <= idx_last < self.segments@.len(),
                bytes_in_next == concat_of(rv.take(idx_last - st)).len(),
                bytes_in_next <= MAX,
                remaining - bytes_in_next >= min_bytes,
                bytes_in_next + self.segments@[idx_last as int]@.len() > MAX || remaining
                    - bytes_in_next - self.segments@[idx_last as int]@.len() < min_bytes,
            decreases self.segments@.len() - idx_last,
        {
            proof {
                vstd::std_specs::vec::axiom_spec_len(&self.segments);
                // The scan cannot run out of segments: taking all of them
                // would leave nothing behind, yet more than a buffer's
                // worth remains.
                if idx_last == self.segments@.len() {
                    assert(rv.take(idx_last - st) =~= rv);
                    crate::text::lemma_concat_of_split(rv, idx_last - st);
                    assert(false);
                }
            }
            let seg = self.segments[idx_last];
            proof {
                crate::text::lemma_concat_of_take_next(rv, idx_last - st);
                crate::text::lemma_concat_of_split(rv, idx_last - st + 1);
                assert(rv[idx_last - st] == self.segments@[idx_last as int]@);
            }
            let new_bytes_in_next = bytes_in_next + seg.len();
            let next_too_big = new_bytes_in_next > MAX;
            let rest_too_small = remaining - new_bytes_in_next < min_bytes;
            if next_too_big || rest_too_small {
                break ;
            }
            bytes_in_next = new_bytes_in_next;
            idx_last = idx_last + 1;
        }
        (idx_last, bytes_in_next)
    }

    /// One step of the resegmenter when more than one buffer's worth of
    /// text remains: packs whole segments plus an adjusted piece of the
    /// straddling one.
    #[verifier::rlimit(100)]
    /// Packs `segments[start .. idx_last]` plus `left_part` into one
    /// buffer, leaving `right_part` as the new head segment.
    #[verifier::rlimit(100)]
    fn take_packed(&mut self, idx_last: usize, left_part: &'a [u8], right_part: &'a [u8]) -> (next_buf: GapBuffer<MAX>)
        requires
            old(self).wf(),
            old(self).start <= idx_last < old(self).segments@.len(),
            old(self).segments@[idx_last as int]@ == left_part@ + right_part@,
            is_utf8(left_part@),
            is_utf8(right_part@),
            ({
                let rv = old(self).remaining_views();
                let k = idx_last - old(self).start;
                let piece = concat_of(rv.take(k)) + left_part@;
                &&& 0 < piece.len() <= MAX
                &&& piece.len() >= GapBuffer::<MAX>::spec_chunk_min()
                &&& old(self).remaining_text().len() - piece.len() == 0 || old(
                    self,
                ).remaining_text().len() - piece.len() >= GapBuffer::<MAX>::spec_chunk_min()
            }),
        ensures
            final(self).wf(),
            final(self).total == old(self).total,
            next_buf.wf(),
            next_buf.text() == concat_of(
                old(self).remaining_views().take(idx_last - old(self).start),
            ) + left_part@,
            next_buf.text() == old(self).remaining_text().take(next_buf.spec_len()),
            final(self).remaining_text() == old(self).remaining_text().skip(
                next_buf.spec_len(),
            ),
            final(self).yielded == old(self).yielded + next_buf.spec_len(),
    {
        let ghost rv = old(self).remaining_views();
        let ghost big_r = old(self).remaining_text();
        let st = self.start;
        let ghost k = idx_last - st;
        let ghost prefix = concat_of(rv.take(k));
        proof {
            crate::text::lemma_concat_of_split(rv, k);
            assert(rv.skip(k)[0] == old(self).segments@[idx_last as int]@);
            assert(rv.skip(k).skip(1) =~= rv.skip(k + 1));
            assert(concat_of(rv.skip(k)) == old(self).segments@[idx_last as int]@ + concat_of(
                rv.skip(k + 1),
            ));
        }
        let mut sub: Vec<&'a [u8]> = self.collect_segments(st, idx_last);
        let ghost piece_text = prefix + left_part@;
        proof {
            assert(chunk_views(sub@) =~= rv.take(k));
            assert(chunk_views(sub@.push(left_part)) =~= chunk_views(sub@).push(left_part@));
            chunk_views(sub@).lemma_flatten_push(left_part@);
            assert(concat_of(chunk_views(sub@.push(left_part))) == piece_text);
            assert(big_r =~= piece_text + (right_part@ + concat_of(rv.skip(k + 1))));
        }
        sub.push(left_part);
        let next_buf = GapBuffer::<MAX>::from_chunks(sub.as_slice());
        self.segments.set(idx_last, right_part);
        self.start = idx_last;
        let piece_len = next_buf.len();
        self.yielded = self.yielded + piece_len;
        proof {
            let new_rv = final(self).remaining_views();
            assert(new_rv[0] == right_part@);
            assert(new_rv.skip(1) =~= chunk_views(old(self).segments@.skip(idx_last + 1)));
            assert(new_rv.skip(1) =~= rv.skip(k + 1));
            assert(concat_of(new_rv) == right_part@ + concat_of(rv.skip(k + 1)));
            assert(final(self).remaining_text() =~= big_r.skip(piece_len as int));
            assert(next_buf.text() =~= big_r.take(piece_len as int));
        }
        next_buf
    }

    /// One step of the resegmenter when more than one buffer's worth of
    /// text remains: packs whole segments plus an adjusted piece of the
    /// straddling one.
    #[verifier::rlimit(100)]
    fn next_large(&mut self, remaining: usize) -> (next_buf: GapBuffer<MAX>)
        requires
            old(self).wf(),
            remaining == old(self).remaining_text().len(),
            remaining > MAX,
        ensures
            final(self).wf(),
            final(self).total == old(self).total,
            next_buf.wf(),
            0 < next_buf.spec_len() <= MAX,
            next_buf.spec_len() >= GapBuffer::<MAX>::spec_chunk_min(),
            next_buf.text() == old(self).remaining_text().take(next_buf.spec_len()),
            final(self).remaining_text() == old(self).remaining_text().skip(
                next_buf.spec_len(),
            ),
            final(self).yielded == old(self).yielded + next_buf.spec_len(),
            next_buf.spec_len() == seg_next_len(old(self).remaining_text(), 0, MAX as int),
    {
        let ghost rv = old(self).remaining_views();
        let ghost big_r = old(self).remaining_text();
        let min_bytes = GapBuffer::<MAX>::min_bytes();
        let st = self.start;
        let (idx_last, bytes_in_next) = self.scan_whole_segments(remaining);
        let ghost k = idx_last - st;
        let ghost prefix = concat_of(rv.take(k));
        let seg = self.segments[idx_last];
        proof {
            // big_r == prefix + seg + rest of the later segments
            crate::text::lemma_concat_of_split(rv, k);
            assert(rv.skip(k)[0] == seg@);
            assert(rv.skip(k).skip(1) =~= rv.skip(k + 1));
            assert(concat_of(rv.skip(k)) == seg@ + concat_of(rv.skip(k + 1)));
        }
        let mut last_segment_len = MAX - bytes_in_next;
        if remaining - bytes_in_next - min_bytes < last_segment_len {
            last_segment_len = remaining - bytes_in_next - min_bytes;
        }
        proof {
            assert(last_segment_len <= seg@.len());
            crate::text::lemma_adjusted_boundaries(seg@, last_segment_len as int);
        }
        let (mut left_part, mut right_part) = crate::text::split_adjusted::<false>(
            seg,
            last_segment_len,
        );
        if bytes_in_next == 0 && left_part.len() == 0 {
            // With a capacity of at least 4 bytes the cut target is at
            // least 4, so a whole code point always fits under it and
            // the downward adjustment cannot come up empty here; the
            // retry is kept for parity with the splitting rule.
            proof {
                assert(last_segment_len >= 4);
                let l = crate::text::utf8_len(seg@[0]);
                assert(crate::text::valid_char_at(seg@, 0));
                if l < seg@.len() {
                    crate::text::lemma_utf8_first_byte(seg@.skip(l));
                    assert(seg@.skip(l)[0] == seg@[l]);
                }
                assert(is_char_boundary(seg@, l));
                crate::text::lemma_prev_boundary_ge(seg@, last_segment_len as int, l);
                assert(false);
            }
            let (l2, r2) = crate::text::split_adjusted::<true>(seg, last_segment_len);
            left_part = l2;
            right_part = r2;
        }
        proof {
            assert(seg@ =~= left_part@ + right_part@);
            // The cut agrees with the one the segmenter would make on the
            // concatenated input: whole-segment bytes plus the in-segment
            // adjustment equal the global downward adjustment.
            assert forall|i: int| 0 <= i < rv.take(k).len() implies is_utf8(
                #[trigger] rv.take(k)[i],
            ) by {
                assert(rv.take(k)[i] == old(self).segments@[old(self).start + i]@);
            }
            crate::text::lemma_concat_of_utf8(rv.take(k));
            assert forall|i: int| 0 <= i < rv.skip(k + 1).len() implies is_utf8(
                #[trigger] rv.skip(k + 1)[i],
            ) by {
                assert(rv.skip(k + 1)[i] == old(self).segments@[old(self).start + k + 1 + i]@);
            }
            crate::text::lemma_concat_of_utf8(rv.skip(k + 1));
            let rest = concat_of(rv.skip(k + 1));
            assert(big_r =~= prefix + seg@ + rest);
            let chunkg = bytes_in_next + last_segment_len;
            assert(chunkg == (if remaining - MAX >= min_bytes {
                MAX as int
            } else {
                remaining - min_bytes
            }));
            crate::text::lemma_prev_boundary_middle(prefix, seg@, rest, chunkg as int);
            assert(big_r.skip(0) =~= big_r);
            assert(left_part@.len() == prev_boundary(seg@, last_segment_len as int));
            assert(bytes_in_next + left_part@.len() == prev_boundary(big_r, chunkg as int));
            assert(bytes_in_next + left_part@.len() == seg_next_len(big_r, 0, MAX as int));
        }
        self.take_packed(idx_last, left_part, right_part)
    }

    /// The next packed buffer: `None` once the input is exhausted. Whole
    /// pending segments are taken while they fit and leave enough behind,
    /// the straddling segment is split at a code-point boundary, and the
    /// consumed prefix is packed with `from_chunks`.
    #[verifier::rlimit(100)]
    pub fn next(&mut self) -> (r: Option<GapBuffer<MAX>>)
        requires
            old(self).wf(),
        ensures
            final(self).wf(),
            final(self).total == old(self).total,
            old(self).remaining_text().len() == 0 ==> r is None && final(self).yielded == old(
                self,
            ).yielded && final(self).remaining_text() == old(self).remaining_text(),
            old(self).remaining_text().len() > 0 ==> ({
                let buf = r->Some_0;
                &&& r is Some
                &&& buf.wf()
                &&& 0 < buf.spec_len() <= MAX
                &&& buf.spec_len() >= GapBuffer::<MAX>::spec_chunk_min()
                &&& buf.text() == old(self).remaining_text().take(buf.spec_len())
                &&& final(self).remaining_text() == old(self).remaining_text().skip(
                    buf.spec_len(),
                )
                &&& final(self).yielded == old(self).yielded + buf.spec_len()
                &&& buf.spec_len() == seg_next_len(old(self).remaining_text(), 0, MAX as int)
            }),
    {
        let remaining = self.total - self.yielded;
        let ghost rv = old(self).remaining_views();
        let ghost big_r = old(self).remaining_text();
        if remaining == 0 {
            return None;
        }
        if remaining > MAX {
            let next_buf = self.next_large(remaining);
            Some(next_buf)
        } else {
            let sub: Vec<&'a [u8]> = self.collect_segments(self.start, self.segments.len());
            proof {
                assert(sub@ =~= self.segments@.skip(self.start as int));
                assert(chunk_views(sub@) == rv);
                assert(big_r.take(big_r.len() as int) =~= big_r);
                assert(big_r.skip(big_r.len() as int) =~= Seq::<u8>::empty());
            }
            let next_buf = GapBuffer::<MAX>::from_chunks(sub.as_slice());
            let piece_len = next_buf.len();
            self.start = self.segments.len();
            self.yielded = self.yielded + piece_len;
            proof {
                assert(final(self).segments@.skip(self.start as int) =~= Seq::<&[u8]>::empty());
                assert(final(self).remaining_views() =~= Seq::<Seq<u8>>::empty());
                assert(final(self).remaining_text() =~= Seq::<u8>::empty());
            }
            Some(next_buf)
        }
    }

    /// Yields everything left, as one list of buffers, each between
    /// `chunk_min` and `MAX` bytes. Concatenating their texts restores
    /// the remaining input byte for byte.
    pub fn collect_all(&mut self) -> (r: Vec<GapBuffer<MAX>>)
        requires
            old(self).wf(),
        ensures
            final(self).wf(),
            concat_of(texts_of(r@)) == old(self).remaining_text(),
            forall|i: int|
                0 <= i < r@.len() ==> (#[trigger] r@[i]).wf() && 0 < r@[i].spec_len() <= MAX
                    && r@[i].spec_len() >= GapBuffer::<MAX>::spec_chunk_min(),
            final(self).remaining_text().len() == 0,
    {
        let ghost big_r = old(self).remaining_text();
        let ghost y0: int = old(self).yielded as int;
        let mut acc: Vec<GapBuffer<MAX>> = Vec::new();
        proof {
            assert(texts_of(acc@) =~= Seq::<Seq<u8>>::empty());
            assert(concat_of(texts_of(acc@)) =~= big_r.take(0));
        }
        loop
            invariant
                self.wf(),
                self.total == old(self).total,
                big_r == old(self).remaining_text(),
                0 <= y0 <= self.yielded,
                self.yielded - y0 <= big_r.len(),
                concat_of(texts_of(acc@)) == big_r.take(self.yielded - y0),
                self.remaining_text() == big_r.skip(self.yielded - y0),
                forall|i: int|
                    0 <= i < acc@.len() ==> (#[trigger] acc@[i]).wf() && 0 < acc@[i].spec_len()
                        <= MAX && acc@[i].spec_len() >= GapBuffer::<MAX>::spec_chunk_min(),
            ensures
                self.wf(),
                self.total == old(self).total,
                concat_of(texts_of(acc@)) == big_r.take(self.yielded - y0),
                self.yielded - y0 == big_r.len(),
                self.remaining_text().len() == 0,
                forall|i: int|
                    0 <= i < acc@.len() ==> (#[trigger] acc@[i]).wf() && 0 < acc@[i].spec_len()
                        <= MAX && acc@[i].spec_len() >= GapBuffer::<MAX>::spec_chunk_min(),
            decreases big_r.len() - (self.yielded - y0),
        {
            let ghost done_before: int = self.yielded - y0;
            let buf_opt = self.next();
            match buf_opt {
                None => {
                    break ;
                },
                Some(buf) => {
                    proof {
                        let done_now: int = self.yielded - y0;
                        assert(texts_of(acc@.push(buf)) =~= texts_of(acc@).push(buf.text()));
                        texts_of(acc@).lemma_flatten_push(buf.text());
                        assert(buf.text() == big_r.skip(done_before).take(done_now - done_before));
                        assert(big_r.take(done_before) + big_r.skip(done_before).take(
                            done_now - done_before,
                        ) =~= big_r.take(done_now));
                        assert(big_r.skip(done_before).skip(done_now - done_before) =~= big_r.skip(
                            done_now,
                        ));
                    }
                    acc.push(buf);
                },
            }
        }
        proof {
            assert(big_r.take(big_r.len() as int) =~= big_r);
        }
        acc
    }
}

} // verus!
