//! What is true of every scan.

use vstd::prelude::*;

use crate::format::{decode, min};
use crate::format_laws::{
    lemma_consumed_bytes_suffice, lemma_decode_bounds, lemma_truncated_stream,
};
use crate::scan::{
    all_zero, as_page, decode_at, hit_at, lemma_progress, scan, stride, window, HitView,
};
use crate::xpress::{lemma_next_multiple, next_multiple, CHUNK_ALIGN, PAGE_SIZE};

verus! {

/// Where a scan that stands at `pos` first comes to stand at or behind `bound`,
/// or behind the data.
pub open spec fn cursor_at(data: Seq<u8>, pos: int, bound: int, min_size: int) -> int
    decreases
            if pos < data.len() {
                data.len() - pos
            } else {
                0
            },
{
    if 0 <= pos < data.len() && pos < bound {
        proof {
            lemma_progress(data, pos, min_size);
        }
        cursor_at(data, pos + stride(data, pos, min_size), bound, min_size)
    } else {
        pos
    }
}

/// Whether the compressed bytes of `hit`, rounded up to the next boundary, take
/// in the offset `p`.
pub open spec fn covers(hit: HitView, p: int) -> bool {
    hit.offset <= p < hit.offset + next_multiple(hit.compressed_len, CHUNK_ALIGN as int)
}

/// Bytes are all zero if and only if those before any place and those from there
/// on are.
pub proof fn lemma_all_zero_splits(bytes: Seq<u8>, k: int)
    requires
        0 <= k <= bytes.len(),
    ensures
        all_zero(bytes) == (all_zero(bytes.take(k)) && all_zero(bytes.skip(k))),
{
    if all_zero(bytes.take(k)) && all_zero(bytes.skip(k)) {
        assert forall|i: int| 0 <= i < bytes.len() implies bytes[i] == 0 by {
            if i < k {
                assert(bytes.take(k)[i] == 0);
            } else {
                assert(bytes.skip(k)[i - k] == 0);
            }
        }
    }
}

/// Every hit is a full page, out of at least one and at most a page's worth of
/// compressed bytes, and decoded to at least `min_size` bytes. The scan moves
/// past all of those compressed bytes.
pub proof fn lemma_hit_bounds(data: Seq<u8>, pos: int, min_size: int)
    requires
        0 <= pos < data.len(),
    ensures
        hit_at(data, pos, min_size) matches Some(hit) ==> {
            &&& hit.well_formed()
            &&& hit.offset == pos
            &&& min_size <= decode_at(data, pos).data.len() <= PAGE_SIZE
            &&& hit.compressed_len <= stride(data, pos, min_size)
        },
{
    lemma_decode_bounds(window(data, pos), PAGE_SIZE as int);
    lemma_next_multiple(decode_at(data, pos).consumed, CHUNK_ALIGN as int);
}

/// Only zeros: no hits, whatever the range and the minimum size.
pub proof fn lemma_zeros_hold_no_hits(data: Seq<u8>, pos: int, end: int, min_size: int)
    requires
        all_zero(data),
    ensures
        scan(data, pos, end, min_size) == Seq::<HitView>::empty(),
    decreases
            if pos < data.len() {
                data.len() - pos
            } else {
                0
            },
{
    if 0 <= pos < data.len() && pos < end {
        lemma_progress(data, pos, min_size);
        assert(all_zero(window(data, pos)));
        lemma_zeros_hold_no_hits(data, pos + stride(data, pos, min_size), end, min_size);
    }
}

/// No decode reaches past a page, so a larger minimum size leaves no hits.
pub proof fn lemma_no_hit_over_a_page(data: Seq<u8>, pos: int, end: int, min_size: int)
    requires
        min_size > PAGE_SIZE,
    ensures
        scan(data, pos, end, min_size) == Seq::<HitView>::empty(),
    decreases
            if pos < data.len() {
                data.len() - pos
            } else {
                0
            },
{
    if 0 <= pos < data.len() && pos < end {
        lemma_progress(data, pos, min_size);
        lemma_hit_bounds(data, pos, min_size);
        lemma_no_hit_over_a_page(data, pos + stride(data, pos, min_size), end, min_size);
    }
}

/// A scan can be interrupted at any bound and resumed from where it stands.
pub proof fn lemma_resume(data: Seq<u8>, pos: int, mid: int, end: int, min_size: int)
    requires
        mid <= end,
    ensures
        scan(data, pos, end, min_size) == scan(data, pos, mid, min_size) + scan(
            data,
            cursor_at(data, pos, mid, min_size),
            end,
            min_size,
        ),
    decreases
            if pos < data.len() {
                data.len() - pos
            } else {
                0
            },
{
    if 0 <= pos < data.len() && pos < mid {
        lemma_progress(data, pos, min_size);
        lemma_resume(data, pos + stride(data, pos, min_size), mid, end, min_size);
    }
    assert(scan(data, pos, end, min_size) =~= scan(data, pos, mid, min_size) + scan(
        data,
        cursor_at(data, pos, mid, min_size),
        end,
        min_size,
    ));
}

/// The end of a range only bounds where candidates start: a larger end adds hits
/// behind those that are found already, and changes none of them. The shorter
/// range holds exactly the hits that start before its end.
pub proof fn lemma_larger_end(data: Seq<u8>, pos: int, end: int, larger: int, min_size: int)
    requires
        end <= larger,
    ensures
        ({
            let short = scan(data, pos, end, min_size);
            let long = scan(data, pos, larger, min_size);
            &&& short.is_prefix_of(long)
            &&& forall|i: int|
                0 <= i < long.len() ==> (i < short.len() <==> (#[trigger] long[i]).offset < end)
        }),
{
    lemma_resume(data, pos, end, larger, min_size);
    lemma_cursor_reaches(data, pos, end, min_size);
    let short = scan(data, pos, end, min_size);
    let long = scan(data, pos, larger, min_size);
    let stand = cursor_at(data, pos, end, min_size);
    let later = scan(data, stand, larger, min_size);
    assert(short =~= long.take(short.len() as int));
    assert forall|i: int| 0 <= i < long.len() implies (i < short.len() <==> (
    #[trigger] long[i]).offset < end) by {
        assert(long.contains(long[i]));
        lemma_hit_in_range(data, pos, larger, min_size, long[i]);
        if i < short.len() {
            assert(short[i] == long[i]);
            assert(short.contains(long[i]));
            lemma_hit_in_range(data, pos, end, min_size, long[i]);
        } else {
            assert(later[i - short.len()] == long[i]);
            assert(later.contains(long[i]));
            lemma_hit_in_range(data, stand, larger, min_size, long[i]);
        }
    }
}

/// Every hit lies in the range, and is what the data hold at its offset: neither
/// the start nor the end of the range has a part in it.
pub proof fn lemma_hit_in_range(
    data: Seq<u8>,
    pos: int,
    end: int,
    min_size: int,
    hit: HitView,
)
    requires
        scan(data, pos, end, min_size).contains(hit),
    ensures
        0 <= pos <= hit.offset < min(end, data.len() as int),
        hit_at(data, hit.offset, min_size) == Some(hit),
    decreases
            if pos < data.len() {
                data.len() - pos
            } else {
                0
            },
{
    if 0 <= pos < data.len() && pos < end {
        lemma_progress(data, pos, min_size);
        let next = pos + stride(data, pos, min_size);
        let rest = scan(data, next, end, min_size);
        let all = scan(data, pos, end, min_size);
        let i = choose|i: int| 0 <= i < all.len() && all[i] == hit;
        match hit_at(data, pos, min_size) {
            Some(first) => {
                if i > 0 {
                    assert(rest[i - 1] == hit);
                    lemma_hit_in_range(data, next, end, min_size, hit);
                }
            },
            None => {
                lemma_hit_in_range(data, next, end, min_size, hit);
            },
        }
    }
}

/// A hit is found if and only if it lies in the range, the data hold it at its
/// offset, and the scan comes to stand there.
pub proof fn lemma_found_iff_visited(
    data: Seq<u8>,
    pos: int,
    end: int,
    min_size: int,
    hit: HitView,
)
    requires
        0 <= pos,
    ensures
        scan(data, pos, end, min_size).contains(hit) <==> {
            &&& pos <= hit.offset < min(end, data.len() as int)
            &&& cursor_at(data, pos, hit.offset, min_size) == hit.offset
            &&& hit_at(data, hit.offset, min_size) == Some(hit)
        },
    decreases
            if pos < data.len() {
                data.len() - pos
            } else {
                0
            },
{
    if pos < data.len() && pos < end {
        lemma_progress(data, pos, min_size);
        let next = pos + stride(data, pos, min_size);
        let rest = scan(data, next, end, min_size);
        let all = scan(data, pos, end, min_size);
        lemma_found_iff_visited(data, next, end, min_size, hit);
        lemma_cursor_reaches(data, next, hit.offset, min_size);
        if all.contains(hit) {
            lemma_hit_in_range(data, pos, end, min_size, hit);
            let i = choose|i: int| 0 <= i < all.len() && all[i] == hit;
            if hit.offset != pos {
                match hit_at(data, pos, min_size) {
                    Some(first) => {
                        assert(rest[i - 1] == hit);
                    },
                    None => {},
                }
                assert(rest.contains(hit));
            }
        }
        if rest.contains(hit) {
            let i = choose|i: int| 0 <= i < rest.len() && rest[i] == hit;
            match hit_at(data, pos, min_size) {
                Some(first) => {
                    assert(all[i + 1] == hit);
                },
                None => {},
            }
        }
        if hit_at(data, pos, min_size) == Some(hit) {
            assert(all[0] == hit);
        }
    }
}

/// A scan never comes to stand before where it stood.
proof fn lemma_cursor_reaches(data: Seq<u8>, pos: int, bound: int, min_size: int)
    ensures
        cursor_at(data, pos, bound, min_size) >= pos,
        pos >= 0 ==> cursor_at(data, pos, bound, min_size) >= min(bound, data.len() as int),
    decreases
            if pos < data.len() {
                data.len() - pos
            } else {
                0
            },
{
    if 0 <= pos < data.len() && pos < bound {
        lemma_progress(data, pos, min_size);
        lemma_cursor_reaches(data, pos + stride(data, pos, min_size), bound, min_size);
    }
}

/// Hits come in the order of their offsets, and their compressed bytes do not
/// overlap.
pub proof fn lemma_hits_in_order(
    data: Seq<u8>,
    pos: int,
    end: int,
    min_size: int,
    i: int,
    j: int,
)
    requires
        0 <= i < j < scan(data, pos, end, min_size).len(),
    ensures
        ({
            let hits = scan(data, pos, end, min_size);
            hits[i].offset + hits[i].compressed_len <= hits[j].offset
        }),
    decreases
            if pos < data.len() {
                data.len() - pos
            } else {
                0
            },
{
    lemma_progress(data, pos, min_size);
    lemma_hit_bounds(data, pos, min_size);
    let next = pos + stride(data, pos, min_size);
    let rest = scan(data, next, end, min_size);
    match hit_at(data, pos, min_size) {
        Some(first) => {
            assert(scan(data, pos, end, min_size)[j] == rest[j - 1]);
            if i == 0 {
                assert(rest.contains(rest[j - 1]));
                lemma_hit_in_range(data, next, end, min_size, rest[j - 1]);
            } else {
                assert(scan(data, pos, end, min_size)[i] == rest[i - 1]);
                lemma_hits_in_order(data, next, end, min_size, i - 1, j - 1);
            }
        },
        None => {
            lemma_hits_in_order(data, next, end, min_size, i, j);
        },
    }
}

/// Candidates, and so hits, lie a multiple of `CHUNK_ALIGN` behind the start.
pub proof fn lemma_hits_aligned(data: Seq<u8>, pos: int, end: int, min_size: int, hit: HitView)
    requires
        scan(data, pos, end, min_size).contains(hit),
    ensures
        (hit.offset - pos) % CHUNK_ALIGN as int == 0,
    decreases
            if pos < data.len() {
                data.len() - pos
            } else {
                0
            },
{
    lemma_hit_in_range(data, pos, end, min_size, hit);
    if hit.offset != pos {
        lemma_progress(data, pos, min_size);
        let next = pos + stride(data, pos, min_size);
        let rest = scan(data, next, end, min_size);
        let all = scan(data, pos, end, min_size);
        let i = choose|i: int| 0 <= i < all.len() && all[i] == hit;
        match hit_at(data, pos, min_size) {
            Some(first) => {
                assert(rest[i - 1] == hit);
            },
            None => {},
        }
        assert(rest.contains(hit));
        lemma_hit_in_range(data, next, end, min_size, hit);
        lemma_hits_aligned(data, next, end, min_size, hit);
        lemma_next_multiple(decode_at(data, pos).consumed, CHUNK_ALIGN as int);
    }
}

/// Truncated pages are recovered: where the data are cut off inside a candidate,
/// its page holds what was decoded before the cut, as the page of the whole
/// candidate does, and zeros from there on.
pub proof fn lemma_truncated_page(data: Seq<u8>, pos: int, cut: int)
    requires
        0 <= pos <= cut <= data.len(),
    ensures
        ({
            let part = decode_at(data.take(cut), pos).data;
            let whole = decode_at(data, pos).data;
            &&& part.is_prefix_of(whole)
            &&& forall|i: int|
                #![trigger as_page(part)[i]]
                0 <= i < PAGE_SIZE ==> as_page(part)[i] == if i < part.len() {
                    as_page(whole)[i]
                } else {
                    0
                }
        }),
{
    let all = window(data, pos);
    let left = min(cut - pos, all.len() as int);
    assert(window(data.take(cut), pos) =~= all.take(left));
    lemma_truncated_stream(all, PAGE_SIZE as int, left);
    let part = decode_at(data.take(cut), pos).data;
    let whole = decode_at(data, pos).data;
    assert(part =~= whole.take(part.len() as int));
}

/// A scan that stands at `pos` and moves past an offset where something can be
/// decoded has a hit at `pos` that takes the offset in.
proof fn lemma_stride_complete(data: Seq<u8>, pos: int, min_size: int, p: int)
    requires
        0 <= pos <= p < data.len(),
        (p - pos) % CHUNK_ALIGN as int == 0,
        !all_zero(data.subrange(p, min(p + CHUNK_ALIGN, data.len() as int))),
        decode_at(data, p).data.len() >= min_size,
    ensures
        p < pos + stride(data, pos, min_size) ==> (hit_at(data, pos, min_size) matches Some(hit)
            && covers(hit, p)),
        p >= pos + stride(data, pos, min_size) ==> (p - (pos + stride(data, pos, min_size)))
            % CHUNK_ALIGN as int == 0,
{
    let around = window(data, pos);
    lemma_decode_bounds(around, PAGE_SIZE as int);
    lemma_next_multiple(decode_at(data, pos).consumed, CHUNK_ALIGN as int);
    if all_zero(around) && p < pos + around.len() {
        let near = data.subrange(p, min(p + CHUNK_ALIGN, data.len() as int));
        assert forall|b: int| 0 <= b < near.len() implies near[b] == 0 by {
            assert(near[b] == around[p - pos + b]);
        }
    }
}

/// A hit of the rest of a scan is a hit of the scan.
proof fn lemma_rest_of_scan(data: Seq<u8>, pos: int, end: int, min_size: int, hit: HitView)
    requires
        0 <= pos < min(end, data.len() as int),
        scan(data, pos + stride(data, pos, min_size), end, min_size).contains(hit),
    ensures
        scan(data, pos, end, min_size).contains(hit),
{
    lemma_progress(data, pos, min_size);
    let rest = scan(data, pos + stride(data, pos, min_size), end, min_size);
    let i = choose|i: int| 0 <= i < rest.len() && rest[i] == hit;
    if hit_at(data, pos, min_size) is Some {
        assert(scan(data, pos, end, min_size)[i + 1] == hit);
    }
}

/// Nothing decodable is missed: where, a multiple of `CHUNK_ALIGN` behind the
/// start, the next `CHUNK_ALIGN` bytes are not all zero and at least `min_size`
/// bytes can be decoded, the compressed bytes of a hit, rounded up to the next
/// boundary, take that place in.
pub proof fn lemma_scan_complete(data: Seq<u8>, pos: int, end: int, min_size: int, p: int)
    requires
        0 <= pos <= p < min(end, data.len() as int),
        (p - pos) % CHUNK_ALIGN as int == 0,
        !all_zero(data.subrange(p, min(p + CHUNK_ALIGN, data.len() as int))),
        decode_at(data, p).data.len() >= min_size,
    ensures
        exists|hit: HitView| #[trigger]
            scan(data, pos, end, min_size).contains(hit) && covers(hit, p),
    decreases data.len() - pos,
{
    let next = pos + stride(data, pos, min_size);
    lemma_progress(data, pos, min_size);
    lemma_stride_complete(data, pos, min_size, p);
    if p < next {
        let hit = hit_at(data, pos, min_size)->0;
        assert(scan(data, pos, end, min_size)[0] == hit);
        assert(scan(data, pos, end, min_size).contains(hit));
    } else {
        lemma_scan_complete(data, next, end, min_size, p);
        let hit = choose|hit: HitView| #[trigger]
            scan(data, next, end, min_size).contains(hit) && covers(hit, p);
        lemma_rest_of_scan(data, pos, end, min_size, hit);
    }
}

/// A range is over at its end and at the end of the data.
pub proof fn lemma_range_is_over(data: Seq<u8>, pos: int, end: int, min_size: int)
    requires
        pos >= end || pos >= data.len(),
    ensures
        scan(data, pos, end, min_size) == Seq::<HitView>::empty(),
{
}

/// Where 4096 bytes are zero, or all that is left, the scan takes up behind them.
pub proof fn lemma_passes_zeros(data: Seq<u8>, pos: int, next: int, end: int, min_size: int)
    requires
        0 <= pos < data.len(),
        pos < end,
        next == pos + 4096 || (next == data.len() && next < pos + 4096),
        next <= data.len(),
        forall|i: int| pos <= i < next ==> data[i] == 0,
    ensures
        scan(data, pos, end, min_size) == scan(data, next, end, min_size),
{
    lemma_progress(data, pos, min_size);
    assert(window(data, pos) =~= data.subrange(pos, next));
    assert(all_zero(window(data, pos)));
}

/// Where the next 4096 bytes, or all that is left, are not all zero and decode to
/// at least `min_size` bytes, there is a hit: its page holds the decoded bytes and
/// zeros behind them, and its compressed length is what the decode consumed, and
/// at least 1. The scan takes up at the first multiple of 16 behind `pos` that
/// lies past the consumed bytes.
pub proof fn lemma_takes_hit(
    data: Seq<u8>,
    pos: int,
    limit: int,
    at: int,
    next: int,
    end: int,
    min_size: int,
)
    requires
        0 <= pos <= at < limit <= data.len(),
        pos < end,
        limit == pos + 4096 || (limit == data.len() && limit < pos + 4096),
        data[at] != 0,
        decode(data.subrange(pos, limit), 4096).data.len() >= min_size,
        (next - pos) % 16 == 0,
        decode(data.subrange(pos, limit), 4096).consumed < next - pos,
        next - pos <= decode(data.subrange(pos, limit), 4096).consumed + 16,
    ensures
        ({
            let decoded = decode(data.subrange(pos, limit), 4096);
            let hits = scan(data, pos, end, min_size);
            let hit = hits[0];
            &&& hits.len() > 0
            &&& hits.skip(1) == scan(data, next, end, min_size)
            &&& hit.offset == pos
            &&& hit.page.len() == 4096
            &&& forall|i: int|
                0 <= i < 4096 ==> #[trigger] hit.page[i] == if i < decoded.data.len() {
                    decoded.data[i]
                } else {
                    0
                }
            &&& hit.compressed_len == if decoded.consumed < 1 {
                1
            } else {
                decoded.consumed
            }
        }),
{
    lemma_progress(data, pos, min_size);
    assert(window(data, pos) =~= data.subrange(pos, limit));
    assert(window(data, pos)[at - pos] != 0);
    lemma_decode_bounds(window(data, pos), 4096);
    lemma_next_multiple(decode_at(data, pos).consumed, 16);
    assert(stride(data, pos, min_size) == next - pos);
    let hits = scan(data, pos, end, min_size);
    assert(hits.skip(1) =~= scan(data, next, end, min_size));
}

/// Where they are not all zero and decode to fewer than `min_size` bytes, the
/// scan takes up 16 bytes on.
pub proof fn lemma_passes_miss(
    data: Seq<u8>,
    pos: int,
    limit: int,
    at: int,
    end: int,
    min_size: int,
)
    requires
        0 <= pos <= at < limit <= data.len(),
        pos < end,
        limit == pos + 4096 || (limit == data.len() && limit < pos + 4096),
        data[at] != 0,
        decode(data.subrange(pos, limit), 4096).data.len() < min_size,
    ensures
        scan(data, pos, end, min_size) == scan(data, pos + 16, end, min_size),
{
    lemma_progress(data, pos, min_size);
    assert(window(data, pos) =~= data.subrange(pos, limit));
    assert(window(data, pos)[at - pos] != 0);
}

/// A hit holds what all the data from its offset on decode to, if that takes no
/// more than a page's worth of compressed bytes, and is otherwise what the first
/// 4096 of them decode to.
pub proof fn lemma_hit_holds_what_follows(
    data: Seq<u8>,
    pos: int,
    end: int,
    min_size: int,
    hit: HitView,
)
    requires
        scan(data, pos, end, min_size).contains(hit),
    ensures
        ({
            let rest = data.skip(hit.offset);
            let decoded = if decode(rest, 4096).consumed <= 4096 {
                decode(rest, 4096)
            } else {
                decode(rest.take(4096), 4096)
            };
            &&& decoded.data.len() >= min_size
            &&& hit.page.len() == 4096
            &&& forall|i: int|
                0 <= i < 4096 ==> #[trigger] hit.page[i] == if i < decoded.data.len() {
                    decoded.data[i]
                } else {
                    0
                }
            &&& hit.compressed_len == if decoded.consumed < 1 {
                1
            } else {
                decoded.consumed
            }
            &&& exists|i: int| 0 <= i < rest.len() && i < 4096 && #[trigger] rest[i] != 0
        }),
{
    lemma_hit_in_range(data, pos, end, min_size, hit);
    let p = hit.offset;
    let rest = data.skip(p);
    let limit = min(p + 4096, data.len() as int);
    lemma_decode_bounds(rest, 4096);
    assert(window(data, p) =~= rest.take(limit - p));
    if decode(rest, 4096).consumed <= 4096 {
        lemma_consumed_bytes_suffice(rest, 4096, limit - p);
    }
    let i = choose|i: int| 0 <= i < window(data, p).len() && window(data, p)[i] != 0;
    assert(rest[i] == window(data, p)[i]);
}

/// Nothing decodable is missed, told by what decodes consume: where, a multiple of
/// 16 behind the start, the next 16 bytes are not all zero and at least `min_size`
/// bytes can be decoded out of the next 4096, there is a hit, or that place lies
/// no further behind a hit than the decode of the hit consumed.
pub proof fn lemma_nothing_passed_over(
    data: Seq<u8>,
    pos: int,
    end: int,
    min_size: int,
    p: int,
    limit: int,
    at: int,
)
    requires
        0 <= pos <= p <= at < limit <= data.len(),
        p < end,
        (p - pos) % 16 == 0,
        at < p + 16,
        data[at] != 0,
        limit == p + 4096 || (limit == data.len() && limit < p + 4096),
        decode(data.subrange(p, limit), 4096).data.len() >= min_size,
    ensures
        exists|hit: HitView| #[trigger]
            scan(data, pos, end, min_size).contains(hit) && hit.offset <= p && p - hit.offset
                <= decode(
                data.subrange(
                    hit.offset,
                    if hit.offset + 4096 < data.len() {
                        hit.offset + 4096
                    } else {
                        data.len() as int
                    },
                ),
                4096,
            ).consumed,
{
    assert(window(data, p) =~= data.subrange(p, limit));
    let near = data.subrange(p, min(p + CHUNK_ALIGN, data.len() as int));
    assert(near[at - p] != 0);
    lemma_scan_complete(data, pos, end, min_size, p);
    let hit = choose|hit: HitView| #[trigger]
        scan(data, pos, end, min_size).contains(hit) && covers(hit, p);
    lemma_hit_in_range(data, pos, end, min_size, hit);
    lemma_hits_aligned(data, pos, end, min_size, hit);
    let consumed = decode_at(data, hit.offset).consumed;
    lemma_decode_bounds(window(data, hit.offset), 4096);
    lemma_next_multiple(hit.compressed_len, 16);
    lemma_next_multiple(consumed, 16);
    assert(p - hit.offset <= consumed);
}

} // verus!
