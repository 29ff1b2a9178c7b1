//! Byte-level text model: line-break counting, UTF-8 validity, and
//! code-point boundary adjustment, with their executable counterparts.
//!
//! A line break is the byte `0x0a`; a `"\r\n"` pair counts once, through its
//! `0x0a`. UTF-8 validity follows the scalar-value encoding: one leading
//! byte that determines the length of the code point, then continuation
//! bytes, with the restricted second-byte ranges that exclude overlong
//! forms, surrogates, and values past U+10FFFF.

use vstd::prelude::*;

verus! {

/// Number of line breaks (`0x0a` bytes) in `s`.
pub open spec fn line_breaks(s: Seq<u8>) -> nat
    decreases s.len(),
{
    if s.len() == 0 {
        0
    } else {
        line_breaks(s.drop_last()) + if s.last() == 10u8 {
            1nat
        } else {
            0nat
        }
    }
}

/// Line breaks split over a concatenation.
pub proof fn lemma_line_breaks_concat(a: Seq<u8>, b: Seq<u8>)
    ensures
        line_breaks(a + b) == line_breaks(a) + line_breaks(b),
    decreases b.len(),
{
    if b.len() == 0 {
        assert(a + b =~= a);
    } else {
        lemma_line_breaks_concat(a, b.drop_last());
        assert((a + b).drop_last() =~= a + b.drop_last());
    }
}

/// There are no more line breaks than bytes.
pub proof fn lemma_line_breaks_le_len(s: Seq<u8>)
    ensures
        line_breaks(s) <= s.len(),
    decreases s.len(),
{
    if s.len() > 0 {
        lemma_line_breaks_le_len(s.drop_last());
    }
}

/// Counts the line breaks in `s`.
pub fn count_line_breaks(s: &[u8]) -> (r: usize)
    ensures
        r == line_breaks(s@),
{
    let mut count: usize = 0;
    let mut i: usize = 0;
    while i < s.len()
        invariant
            i <= s@.len(),
            count == line_breaks(s@.take(i as int)),
        decreases s@.len() - i,
    {
        proof {
            assert(s@.take(i + 1).drop_last() =~= s@.take(i as int));
            lemma_line_breaks_le_len(s@.take(i as int));
        }
        if s[i] == 10u8 {
            count = count + 1;
        }
        i = i + 1;
    }
    proof {
        assert(s@.take(s@.len() as int) =~= s@);
    }
    count
}

/// True when `s` ends in a line break.
pub fn last_byte_is_newline(s: &[u8]) -> (r: bool)
    ensures
        r == (s@.len() > 0 && s@.last() == 10u8),
{
    s.len() > 0 && s[s.len() - 1] == 10u8
}

/// The views of a list of byte strings.
pub open spec fn chunk_views(chunks: Seq<&[u8]>) -> Seq<Seq<u8>> {
    chunks.map_values(|c: &[u8]| c@)
}

/// The concatenation of a list of byte sequences.
pub open spec fn concat_of(chunks: Seq<Seq<u8>>) -> Seq<u8> {
    chunks.flatten()
}

/// Extending a concatenation by one more piece appends that piece.
pub proof fn lemma_concat_of_take_next(chunks: Seq<Seq<u8>>, i: int)
    requires
        0 <= i < chunks.len(),
    ensures
        concat_of(chunks.take(i + 1)) == concat_of(chunks.take(i)) + chunks[i],
{
    assert(chunks.take(i + 1) =~= chunks.take(i).push(chunks[i]));
    chunks.take(i).lemma_flatten_push(chunks[i]);
}

/// Appending one more piece to a concatenation appends its bytes.
pub proof fn lemma_concat_of_push(chunks: Seq<Seq<u8>>, piece: Seq<u8>)
    ensures
        concat_of(chunks.push(piece)) == concat_of(chunks) + piece,
{
    chunks.lemma_flatten_push(piece);
}

/// A concatenation splits at any piece count.
pub proof fn lemma_concat_of_split(chunks: Seq<Seq<u8>>, i: int)
    requires
        0 <= i <= chunks.len(),
    ensures
        concat_of(chunks) == concat_of(chunks.take(i)) + concat_of(chunks.skip(i)),
{
    assert(chunks =~= chunks.take(i) + chunks.skip(i));
    vstd::seq_lib::lemma_flatten_concat(chunks.take(i), chunks.skip(i));
}

/// A UTF-8 continuation byte.
pub open spec fn is_cont_byte(b: u8) -> bool {
    0x80 <= b <= 0xbf
}

/// Length of the code point introduced by the leading byte `b`, or 0 when
/// `b` cannot lead one.
pub open spec fn utf8_len(b: u8) -> int {
    if b <= 0x7f {
        1
    } else if 0xc2 <= b <= 0xdf {
        2
    } else if 0xe0 <= b <= 0xef {
        3
    } else if 0xf0 <= b <= 0xf4 {
        4
    } else {
        0
    }
}

/// Allowed second byte after the leading byte `b0`: the restricted ranges
/// rule out overlong encodings, surrogates, and values past U+10FFFF.
pub open spec fn valid_second_byte(b0: u8, b1: u8) -> bool {
    if b0 == 0xe0 {
        0xa0 <= b1 <= 0xbf
    } else if b0 == 0xed {
        0x80 <= b1 <= 0x9f
    } else if b0 == 0xf0 {
        0x90 <= b1 <= 0xbf
    } else if b0 == 0xf4 {
        0x80 <= b1 <= 0x8f
    } else {
        is_cont_byte(b1)
    }
}

/// The bytes `s[i .. i + utf8_len(s[i])]` encode one scalar value.
pub open spec fn valid_char_at(s: Seq<u8>, i: int) -> bool {
    let l = utf8_len(s[i]);
    &&& 0 <= i
    &&& 1 <= l
    &&& i + l <= s.len()
    &&& (l >= 2 ==> valid_second_byte(s[i], s[i + 1]))
    &&& (l >= 3 ==> is_cont_byte(s[i + 2]))
    &&& (l == 4 ==> is_cont_byte(s[i + 3]))
}

/// `s` is a sequence of whole, well-formed UTF-8 code points.
pub open spec fn is_utf8(s: Seq<u8>) -> bool
    decreases s.len(),
{
    if s.len() == 0 {
        true
    } else if valid_char_at(s, 0) {
        is_utf8(s.skip(utf8_len(s[0])))
    } else {
        false
    }
}

/// `i` does not fall inside a code point: it is the length of `s`, or the
/// byte at `i` is not a continuation byte. On valid UTF-8 this is exactly
/// `str::is_char_boundary`.
pub open spec fn is_char_boundary(s: Seq<u8>, i: int) -> bool {
    0 <= i <= s.len() && (i == s.len() || !is_cont_byte(s[i]))
}

/// In valid UTF-8 the first byte is never a continuation byte, so offset 0
/// is always a boundary.
pub proof fn lemma_utf8_first_byte(s: Seq<u8>)
    requires
        is_utf8(s),
    ensures
        is_char_boundary(s, 0),
{
}

/// Concatenating two valid UTF-8 sequences yields a valid one.
pub proof fn lemma_utf8_concat(a: Seq<u8>, b: Seq<u8>)
    requires
        is_utf8(a),
        is_utf8(b),
    ensures
        is_utf8(a + b),
    decreases a.len(),
{
    if a.len() == 0 {
        assert(a + b =~= b);
    } else {
        let l = utf8_len(a[0]);
        lemma_utf8_concat(a.skip(l), b);
        assert((a + b).skip(l) =~= a.skip(l) + b);
        assert(valid_char_at(a + b, 0));
    }
}

/// Splitting valid UTF-8 at a code-point boundary yields two valid halves.
pub proof fn lemma_utf8_split(s: Seq<u8>, i: int)
    requires
        is_utf8(s),
        is_char_boundary(s, i),
    ensures
        is_utf8(s.take(i)),
        is_utf8(s.skip(i)),
    decreases s.len(),
{
    if i == 0 {
        assert(s.take(0) =~= Seq::<u8>::empty());
        assert(s.skip(0) =~= s);
    } else {
        let l = utf8_len(s[0]);
        if i < l {
            // Bytes 1 .. l are continuation bytes, so no boundary falls there.
            assert(is_cont_byte(s[i]));
            assert(false);
        } else {
            assert(is_char_boundary(s.skip(l), i - l));
            lemma_utf8_split(s.skip(l), i - l);
            assert(s.skip(i) =~= s.skip(l).skip(i - l));
            assert(s.take(i).skip(l) =~= s.skip(l).take(i - l));
            assert(valid_char_at(s.take(i), 0));
        }
    }
}

/// A boundary of `a` is still a boundary once valid text is appended.
pub proof fn lemma_boundary_concat(a: Seq<u8>, b: Seq<u8>, i: int)
    requires
        is_utf8(b),
        is_char_boundary(a, i),
    ensures
        is_char_boundary(a + b, i),
{
    if i == a.len() && b.len() > 0 {
        lemma_utf8_first_byte(b);
        assert((a + b)[i] == b[0]);
    }
}

/// A boundary of the tail `t.skip(end)` is a boundary of `t` shifted by
/// `end`.
pub proof fn lemma_skip_boundary(t: Seq<u8>, end: int, c: int)
    requires
        0 <= end <= t.len(),
        0 <= c <= t.len() - end,
        is_char_boundary(t.skip(end), c),
    ensures
        is_char_boundary(t, end + c),
{
    if end + c < t.len() {
        assert(t[end + c] == t.skip(end)[c]);
    }
}

/// A boundary of `t` at or before a cut is a boundary of the cut prefix.
pub proof fn lemma_take_boundary(t: Seq<u8>, n: int, i: int)
    requires
        0 <= i <= n <= t.len(),
        is_char_boundary(t, i),
    ensures
        is_char_boundary(t.take(n), i),
{
    if i < n {
        assert(t.take(n)[i] == t[i]);
    }
}

/// A boundary of the prefix `t.take(n)` is a boundary of `t` when `n` is.
pub proof fn lemma_take_boundary_rev(t: Seq<u8>, n: int, i: int)
    requires
        0 <= i <= n <= t.len(),
        is_char_boundary(t.take(n), i),
        is_char_boundary(t, n),
    ensures
        is_char_boundary(t, i),
{
    if i < n {
        assert(t.take(n)[i] == t[i]);
    }
}

/// The concatenation of five pieces, written out.
pub proof fn lemma_concat_of_five(a: Seq<u8>, b: Seq<u8>, c: Seq<u8>, d: Seq<u8>, e: Seq<u8>)
    ensures
        concat_of(seq![a, b, c, d, e]) == a + b + c + d + e,
{
    let s0 = Seq::<Seq<u8>>::empty();
    lemma_concat_of_push(s0, a);
    lemma_concat_of_push(s0.push(a), b);
    lemma_concat_of_push(s0.push(a).push(b), c);
    lemma_concat_of_push(s0.push(a).push(b).push(c), d);
    lemma_concat_of_push(s0.push(a).push(b).push(c).push(d), e);
    assert(s0.push(a).push(b).push(c).push(d).push(e) =~= seq![a, b, c, d, e]);
    assert(concat_of(s0) + a =~= a);
}

/// Every non-boundary offset lies strictly inside one code point of a valid
/// sequence: its start is a boundary at most 3 bytes below, its end is a
/// boundary at most 3 bytes above, and nothing between them is a boundary.
pub proof fn lemma_enclosing_char(s: Seq<u8>, i: int) -> (c: int)
    requires
        is_utf8(s),
        0 <= i <= s.len(),
        !is_char_boundary(s, i),
    ensures
        is_char_boundary(s, c),
        c < i < c + utf8_len(s[c]),
        c + utf8_len(s[c]) <= s.len(),
        is_char_boundary(s, c + utf8_len(s[c])),
        forall|j: int| c < j < c + utf8_len(s[c]) ==> !is_char_boundary(s, j),
    decreases s.len(),
{
    let l = utf8_len(s[0]);
    if i < l {
        assert forall|j: int| 0 < j < l implies !is_char_boundary(s, j) by {
            assert(is_cont_byte(s[j]));
        }
        if l < s.len() {
            lemma_utf8_first_byte(s.skip(l));
            assert(s.skip(l)[0] == s[l]);
        }
        0
    } else {
        assert(is_char_boundary(s.skip(l), i - l)
            == is_char_boundary(s, i));
        let c0 = lemma_enclosing_char(s.skip(l), i - l);
        let c = c0 + l;
        assert(s.skip(l)[c0] == s[c]);
        let lc = utf8_len(s[c]);
        assert(is_char_boundary(s.skip(l), c0 + lc) == is_char_boundary(s, c + lc));
        assert forall|j: int| c < j < c + lc implies !is_char_boundary(s, j) by {
            assert(!is_char_boundary(s.skip(l), j - l));
        }
        c
    }
}

/// Largest code-point boundary at or below `at` (0 when none is found
/// above 0, which on valid UTF-8 is itself a boundary).
pub open spec fn prev_boundary(s: Seq<u8>, at: int) -> int
    decreases at,
{
    if at <= 0 {
        0
    } else if is_char_boundary(s, at) {
        at
    } else {
        prev_boundary(s, at - 1)
    }
}

/// Smallest code-point boundary at or above `at` (the length when none is
/// found below it).
pub open spec fn next_boundary(s: Seq<u8>, at: int) -> int
    decreases s.len() - at,
{
    if at >= s.len() {
        s.len() as int
    } else if is_char_boundary(s, at) {
        at
    } else {
        next_boundary(s, at + 1)
    }
}

/// `prev_boundary` lands on `b` when `b` is a boundary and nothing between
/// `b` and `at` is one.
pub proof fn lemma_prev_boundary_exact(s: Seq<u8>, at: int, b: int)
    requires
        0 <= b <= at,
        is_char_boundary(s, b),
        forall|j: int| b < j <= at ==> !is_char_boundary(s, j),
    ensures
        prev_boundary(s, at) == b,
    decreases at - b,
{
    if at > b {
        lemma_prev_boundary_exact(s, at - 1, b);
    }
}

/// `next_boundary` lands on `b` when `b` is a boundary and nothing between
/// `at` and `b` is one.
pub proof fn lemma_next_boundary_exact(s: Seq<u8>, at: int, b: int)
    requires
        at <= b <= s.len(),
        is_char_boundary(s, b),
        forall|j: int| at <= j < b ==> !is_char_boundary(s, j),
    ensures
        next_boundary(s, at) == b,
    decreases b - at,
{
    if at < b {
        lemma_next_boundary_exact(s, at + 1, b);
    }
}

/// `prev_boundary` is the largest boundary at or below `at`: it is at or
/// above any boundary `b` at or below `at`.
pub proof fn lemma_prev_boundary_ge(s: Seq<u8>, at: int, b: int)
    requires
        0 <= b <= at,
        is_char_boundary(s, b),
    ensures
        prev_boundary(s, at) >= b,
    decreases at - b,
{
    if at > b && !is_char_boundary(s, at) {
        lemma_prev_boundary_ge(s, at - 1, b);
    }
}

/// A concatenation of valid UTF-8 pieces is valid UTF-8.
pub proof fn lemma_concat_of_utf8(chunks: Seq<Seq<u8>>)
    requires
        forall|i: int| 0 <= i < chunks.len() ==> is_utf8(#[trigger] chunks[i]),
    ensures
        is_utf8(concat_of(chunks)),
    decreases chunks.len(),
{
    if chunks.len() == 0 {
        assert(concat_of(chunks) =~= Seq::<u8>::empty());
    } else {
        assert(forall|i: int|
            0 <= i < chunks.drop_first().len() ==> is_utf8(#[trigger] chunks.drop_first()[i]));
        lemma_concat_of_utf8(chunks.drop_first());
        assert(is_utf8(chunks.first()));
        lemma_utf8_concat(chunks.first(), concat_of(chunks.drop_first()));
        assert(concat_of(chunks) == chunks.first() + concat_of(chunks.drop_first()));
    }
}

/// Adjusting down inside the middle piece of a concatenation of valid
/// texts gives the same boundary whether the search runs over the middle
/// piece alone or over the whole concatenation.
pub proof fn lemma_prev_boundary_middle(a: Seq<u8>, b: Seq<u8>, rest: Seq<u8>, at: int)
    requires
        is_utf8(a),
        is_utf8(b),
        is_utf8(rest),
        a.len() <= at <= a.len() + b.len(),
    ensures
        prev_boundary(a + b + rest, at) == a.len() + prev_boundary(b, at - a.len()),
{
    let r = a + b + rest;
    let pb = prev_boundary(b, at - a.len());
    lemma_adjusted_boundaries(b, at - a.len());
    if pb < b.len() {
        assert(r[a.len() + pb] == b[pb]);
    } else {
        if rest.len() > 0 {
            lemma_utf8_first_byte(rest);
            assert(r[a.len() + pb] == rest[0]);
        }
    }
    assert(is_char_boundary(r, a.len() + pb));
    assert forall|j: int| a.len() + pb < j <= at implies !is_char_boundary(r, j) by {
        let jb = j - a.len();
        if is_char_boundary(r, j) {
            if jb < b.len() {
                assert(b[jb] == r[j]);
            }
            assert(is_char_boundary(b, jb));
            lemma_prev_boundary_ge(b, at - a.len(), jb);
        }
    }
    lemma_prev_boundary_exact(r, at, a.len() + pb);
}

/// On valid UTF-8 both adjusted offsets are boundaries within 3 bytes of
/// the requested one.
pub proof fn lemma_adjusted_boundaries(s: Seq<u8>, at: int)
    requires
        is_utf8(s),
        0 <= at <= s.len(),
    ensures
        is_char_boundary(s, prev_boundary(s, at)),
        0 <= prev_boundary(s, at) <= at,
        at - prev_boundary(s, at) <= 3,
        is_char_boundary(s, next_boundary(s, at)),
        at <= next_boundary(s, at) <= s.len(),
        next_boundary(s, at) - at <= 3,
{
    if is_char_boundary(s, at) {
        assert(prev_boundary(s, at) == at);
        assert(next_boundary(s, at) == at);
    } else {
        let c = lemma_enclosing_char(s, at);
        let l = utf8_len(s[c]);
        lemma_prev_boundary_exact(s, at, c);
        lemma_next_boundary_exact(s, at, c + l);
    }
}

/// Returns the offset nearest to `at` that lies on a code-point boundary
/// of `s`, moving up when `UP`, down otherwise.
pub fn adjust_split_point<const UP: bool>(s: &[u8], at: usize) -> (r: usize)
    requires
        is_utf8(s@),
        at <= s@.len(),
    ensures
        UP ==> r == next_boundary(s@, at as int),
        !UP ==> r == prev_boundary(s@, at as int),
        is_char_boundary(s@, r as int),
        r <= s@.len(),
{
    proof {
        lemma_adjusted_boundaries(s@, at as int);
    }
    let mut i: usize = at;
    if UP {
        while i < s.len() && 0x80 <= s[i] && s[i] <= 0xbf
            invariant
                is_utf8(s@),
                at <= i <= s@.len(),
                next_boundary(s@, i as int) == next_boundary(s@, at as int),
            decreases s@.len() - i,
        {
            i = i + 1;
        }
    } else {
        while !(i == s.len() || !(0x80 <= s[i] && s[i] <= 0xbf))
            invariant
                is_utf8(s@),
                i <= at <= s@.len(),
                prev_boundary(s@, i as int) == prev_boundary(s@, at as int),
            decreases i,
        {
            proof {
                if i == 0 {
                    lemma_utf8_first_byte(s@);
                    assert(false);
                }
            }
            i = i - 1;
        }
    }
    i
}

/// Splits `s` at the nearest code-point boundary to `at`, moving up when
/// `UP`, down otherwise.
pub fn split_adjusted<'a, const UP: bool>(s: &'a [u8], at: usize) -> (r: (&'a [u8], &'a [u8]))
    requires
        is_utf8(s@),
        at <= s@.len(),
    ensures
        ({
            let adj = if UP {
                next_boundary(s@, at as int)
            } else {
                prev_boundary(s@, at as int)
            };
            r.0@ == s@.take(adj) && r.1@ == s@.skip(adj)
        }),
        is_utf8(r.0@),
        is_utf8(r.1@),
        r.0@ + r.1@ == s@,
{
    let adj = adjust_split_point::<UP>(s, at);
    proof {
        lemma_utf8_split(s@, adj as int);
        assert(s@.take(adj as int) + s@.skip(adj as int) =~= s@);
    }
    (
        vstd::slice::slice_subrange(s, 0, adj),
        vstd::slice::slice_subrange(s, adj, s.len()),
    )
}

} // verus!
