//! UTF-8 boundary scanning and the bulk loader's chunking of a buffer
//! region into metric summaries of roughly `CHUNK_TARGET` bytes each.

use vstd::prelude::*;

use crate::metrics::{lemma_prefix_concat, lemma_sum_concat, prefix_bytes, sum_bytes, sum_chars,
    Metrics};

verus! {

/// Target byte size of one chunk during bulk construction; a chunk grows
/// past this only to reach the next character boundary.
pub const CHUNK_TARGET: usize = 5;

/// Whether a byte can start a character: an ASCII byte (top bit 0) or the
/// first byte of a multi-byte sequence (top two bits 11). UTF-8
/// continuation bytes (top two bits 10) are never boundaries.
pub open spec fn is_boundary_byte(b: u8) -> bool {
    b < 0x80 || b >= 0xC0
}

/// Whether `byte` is a valid place for a chunk boundary to start.
pub fn is_char_boundary(byte: &u8) -> (r: bool)
    ensures
        r == is_boundary_byte(*byte),
{
    *byte < 0x80 || *byte >= 0xC0
}

/// Number of character-boundary bytes in `s[lo..hi)`; on well-formed UTF-8
/// this is the number of encoded characters in that range.
pub open spec fn char_count_range(s: Seq<u8>, lo: int, hi: int) -> int
    decreases hi - lo,
{
    if lo >= hi {
        0
    } else {
        (if is_boundary_byte(s[lo]) {
            1int
        } else {
            0int
        }) + char_count_range(s, lo + 1, hi)
    }
}

/// Relies on `bytecount::num_chars`: it returns the number of bytes of the
/// slice that do not carry the UTF-8 continuation pattern `10xxxxxx`, which
/// its documentation describes as the number of UTF-8 encoded codepoints.
#[verifier::external_body]
fn count_chars_range(s: &[u8], lo: usize, hi: usize) -> (r: usize)
    requires
        lo <= hi <= s@.len(),
    ensures
        r as int == char_count_range(s@, lo as int, hi as int),
{
    bytecount::num_chars(&s[lo..hi])
}

/// A range holds at least zero and at most its width in characters.
pub proof fn lemma_char_count_bounds(s: Seq<u8>, lo: int, hi: int)
    requires
        lo <= hi,
    ensures
        0 <= char_count_range(s, lo, hi) <= hi - lo,
    decreases hi - lo,
{
    if lo < hi {
        lemma_char_count_bounds(s, lo + 1, hi);
    }
}

/// Character counts over adjacent ranges add up.
pub proof fn lemma_char_count_split(s: Seq<u8>, lo: int, mid: int, hi: int)
    requires
        lo <= mid <= hi,
    ensures
        char_count_range(s, lo, hi) == char_count_range(s, lo, mid) + char_count_range(s, mid, hi),
    decreases mid - lo,
{
    if lo < mid {
        lemma_char_count_split(s, lo + 1, mid, hi);
    }
}

/// The first position at or after `i` (and before `hi`) where a character
/// starts, or `hi` if there is none.
pub open spec fn next_boundary(s: Seq<u8>, i: int, hi: int) -> int
    decreases hi - i,
{
    if i >= hi {
        hi
    } else if is_boundary_byte(s[i]) {
        i
    } else {
        next_boundary(s, i + 1, hi)
    }
}

/// `next_boundary` stays within `[i, hi]` and lands on a boundary byte
/// unless it runs off the end of the range.
pub proof fn lemma_next_boundary_props(s: Seq<u8>, i: int, hi: int)
    requires
        i <= hi,
    ensures
        i <= next_boundary(s, i, hi) <= hi,
        next_boundary(s, i, hi) == hi || is_boundary_byte(s[next_boundary(s, i, hi)]),
    decreases hi - i,
{
    if i < hi && !is_boundary_byte(s[i]) {
        lemma_next_boundary_props(s, i + 1, hi);
    }
}

/// Where the chunk that starts at `lo` ends: `CHUNK_TARGET` bytes in, then
/// extended forward to the next character boundary, capped at `hi`.
pub open spec fn chunk_end(s: Seq<u8>, lo: int, hi: int) -> int {
    if hi - lo <= CHUNK_TARGET {
        hi
    } else {
        next_boundary(s, lo + CHUNK_TARGET, hi)
    }
}

/// A chunk is never empty, never runs past the region, and its end is a
/// character boundary unless the region itself ends first.
pub proof fn lemma_chunk_end_props(s: Seq<u8>, lo: int, hi: int)
    requires
        lo < hi,
    ensures
        lo < chunk_end(s, lo, hi) <= hi,
        chunk_end(s, lo, hi) == hi || is_boundary_byte(s[chunk_end(s, lo, hi)]),
{
    if hi - lo > CHUNK_TARGET {
        lemma_next_boundary_props(s, lo + CHUNK_TARGET, hi);
    }
}

/// The summaries of the chunks the bulk loader cuts the region `[lo, hi)`
/// of buffer `s` into, in buffer order.
pub open spec fn region_chunks(s: Seq<u8>, lo: int, hi: int) -> Seq<Metrics>
    decreases hi - lo,
    via region_chunks_dec
{
    if lo >= hi {
        Seq::empty()
    } else {
        let e = chunk_end(s, lo, hi);
        seq![
            (Metrics { bytes: (e - lo) as usize, chars: char_count_range(s, lo, e) as usize }),
        ] + region_chunks(s, e, hi)
    }
}

#[via_fn]
proof fn region_chunks_dec(s: Seq<u8>, lo: int, hi: int) {
    if lo < hi {
        lemma_chunk_end_props(s, lo, hi);
    }
}

/// A region's chunk summaries account for every one of its bytes exactly
/// once, and for its characters exactly.
pub proof fn lemma_region_chunks_sums(s: Seq<u8>, lo: int, hi: int)
    requires
        0 <= lo <= hi <= usize::MAX,
    ensures
        sum_bytes(region_chunks(s, lo, hi)) == hi - lo,
        sum_chars(region_chunks(s, lo, hi)) == char_count_range(s, lo, hi),
    decreases hi - lo,
{
    if lo >= hi {
        assert(sum_bytes(Seq::<Metrics>::empty()) == 0);
        assert(sum_chars(Seq::<Metrics>::empty()) == 0);
    } else {
        let e = chunk_end(s, lo, hi);
        lemma_chunk_end_props(s, lo, hi);
        lemma_char_count_bounds(s, lo, e);
        let m = Metrics { bytes: (e - lo) as usize, chars: char_count_range(s, lo, e) as usize };
        lemma_region_chunks_sums(s, e, hi);
        lemma_sum_concat(seq![m], region_chunks(s, e, hi));
        assert(prefix_bytes(seq![m], 0) == 0);
        assert(crate::metrics::prefix_chars(seq![m], 0) == 0);
        assert(sum_bytes(seq![m]) == m.bytes);
        assert(sum_chars(seq![m]) == m.chars);
        lemma_char_count_split(s, lo, e, hi);
    }
}

/// Boundary alignment: no chunk of a bulk-loaded region ends inside a
/// multi-byte character encoding. The right edge of every chunk — the
/// region start plus the byte counts of the chunks up to and including it —
/// is either the end of the region or a byte on which a character starts.
pub proof fn lemma_chunks_boundary_aligned(s: Seq<u8>, lo: int, hi: int, j: int)
    requires
        0 <= lo <= hi <= usize::MAX,
        0 <= j < region_chunks(s, lo, hi).len(),
    ensures
        ({
            let edge = lo + prefix_bytes(region_chunks(s, lo, hi), j + 1);
            edge == hi || is_boundary_byte(s[edge])
        }),
    decreases hi - lo,
{
    let cs = region_chunks(s, lo, hi);
    let e = chunk_end(s, lo, hi);
    lemma_chunk_end_props(s, lo, hi);
    let m = Metrics { bytes: (e - lo) as usize, chars: char_count_range(s, lo, e) as usize };
    let rest = region_chunks(s, e, hi);
    assert(cs == seq![m] + rest);
    lemma_prefix_concat(seq![m], rest, j + 1);
    assert(prefix_bytes(seq![m], 0) == 0);
    assert(sum_bytes(seq![m]) == m.bytes);
    if j == 0 {
        assert(prefix_bytes(cs, 1) == m.bytes);
    } else {
        lemma_chunks_boundary_aligned(s, e, hi, j - 1);
    }
}

/// Cut the region `[lo, hi)` of the buffer into chunk summaries, as the
/// bulk loader's chunking spec describes.
pub fn chunk_region(buffer: &[u8], lo: usize, hi: usize) -> (r: Vec<Metrics>)
    requires
        lo <= hi <= buffer@.len(),
    ensures
        r@ == region_chunks(buffer@, lo as int, hi as int),
{
    let ghost s = buffer@;
    let mut r: Vec<Metrics> = Vec::new();
    let mut start: usize = lo;
    while start < hi
        invariant
            lo <= start <= hi <= buffer@.len(),
            s == buffer@,
            region_chunks(s, lo as int, hi as int) == r@ + region_chunks(
                s,
                start as int,
                hi as int,
            ),
        decreases hi - start,
    {
        let mut end: usize = if hi - start <= CHUNK_TARGET {
            hi
        } else {
            start + CHUNK_TARGET
        };
        let ghost e0 = end as int;
        while end < hi && !is_char_boundary(vstd::slice::slice_index_get(buffer, end))
            invariant
                e0 <= end as int <= hi <= buffer@.len(),
                s == buffer@,
                next_boundary(s, e0, hi as int) == next_boundary(s, end as int, hi as int),
            decreases hi - end,
        {
            end = end + 1;
        }
        proof {
            if end < hi {
                assert(next_boundary(s, end as int, hi as int) == end as int);
            }
            assert(end as int == chunk_end(s, start as int, hi as int));
            lemma_chunk_end_props(s, start as int, hi as int);
            lemma_char_count_bounds(s, start as int, end as int);
        }
        let chars = count_chars_range(buffer, start, end);
        let m = Metrics { bytes: end - start, chars };
        r.push(m);
        proof {
            let ghost mspec = Metrics {
                bytes: (end - start) as usize,
                chars: char_count_range(s, start as int, end as int) as usize,
            };
            assert(m == mspec);
            assert(region_chunks(s, start as int, hi as int) == seq![mspec] + region_chunks(
                s,
                end as int,
                hi as int,
            ));
            assert(r@ + region_chunks(s, end as int, hi as int) =~= (r@.drop_last() + seq![mspec])
                + region_chunks(s, end as int, hi as int));
            assert(region_chunks(s, lo as int, hi as int) =~= r@ + region_chunks(
                s,
                end as int,
                hi as int,
            ));
        }
        start = end;
    }
    proof {
        assert(region_chunks(s, start as int, hi as int) =~= Seq::<Metrics>::empty());
        assert(region_chunks(s, lo as int, hi as int) =~= r@);
    }
    r
}

} // verus!
