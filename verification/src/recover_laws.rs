//! What is true of every recovery.

use vstd::prelude::*;

use crate::format::min;
use crate::recover::{
    chunk_count, chunk_hits, compressed_bytes_of, first_chunks, joined, pages_of, recovered,
    WORK_CHUNK,
};
use crate::scan::{all_zero, decode_at, hit_at, hit_views, scan, Hit, HitView};
use crate::scan_laws::{
    covers, cursor_at, lemma_found_iff_visited, lemma_hit_bounds, lemma_hit_in_range,
    lemma_hits_aligned, lemma_hits_in_order, lemma_larger_end, lemma_scan_complete,
};
use crate::xpress::{CHUNK_ALIGN, PAGE_SIZE};

verus! {

/// The start of the range that `offset` lies in.
pub open spec fn range_start(offset: int) -> int {
    offset - offset % WORK_CHUNK as int
}

/// Pages are laid out one after the other, each in full: the `k`th hit's page
/// stands at `k * PAGE_SIZE`.
pub proof fn lemma_pages_laid_out(hits: Seq<HitView>, k: int)
    requires
        forall|i: int| 0 <= i < hits.len() ==> (#[trigger] hits[i]).well_formed(),
        0 <= k < hits.len(),
    ensures
        pages_of(hits).len() == hits.len() * PAGE_SIZE,
        pages_of(hits).subrange(k * PAGE_SIZE, (k + 1) * PAGE_SIZE) == hits[k].page,
    decreases hits.len(),
{
    let fewer = hits.drop_last();
    if fewer.len() == 0 {
        assert(pages_of(fewer) =~= Seq::empty());
    } else {
        lemma_pages_laid_out(fewer, min(k, fewer.len() - 1));
    }
    assert(hits.last().well_formed());
    if k < fewer.len() {
        assert(pages_of(hits).subrange(k * PAGE_SIZE, (k + 1) * PAGE_SIZE) =~= pages_of(
            fewer,
        ).subrange(k * PAGE_SIZE, (k + 1) * PAGE_SIZE));
    } else {
        assert(pages_of(hits).subrange(k * PAGE_SIZE, (k + 1) * PAGE_SIZE) =~= hits[k].page);
    }
}

/// Data that fit into one range are scanned in one go.
pub proof fn lemma_one_range(data: Seq<u8>, min_size: int)
    requires
        data.len() <= WORK_CHUNK,
    ensures
        recovered(data, min_size) == scan(data, 0, data.len() as int, min_size),
{
    reveal_with_fuel(first_chunks, 2);
    assert(recovered(data, min_size) =~= scan(data, 0, data.len() as int, min_size));
}

/// The hits of the first `n` ranges: which they are.
proof fn lemma_first_chunks_iff(data: Seq<u8>, n: int, min_size: int, hit: HitView)
    requires
        0 <= n,
    ensures
        first_chunks(data, n, min_size).contains(hit) <==> {
            &&& 0 <= hit.offset < min(n * WORK_CHUNK, data.len() as int)
            &&& cursor_at(data, range_start(hit.offset), hit.offset, min_size) == hit.offset
            &&& hit_at(data, hit.offset, min_size) == Some(hit)
        },
    decreases n,
{
    if n > 0 {
        let earlier = first_chunks(data, n - 1, min_size);
        let last = chunk_hits(data, n - 1, min_size);
        lemma_first_chunks_iff(data, n - 1, min_size, hit);
        lemma_found_iff_visited(
            data,
            (n - 1) * WORK_CHUNK,
            min(n * WORK_CHUNK, data.len() as int),
            min_size,
            hit,
        );
        let all = first_chunks(data, n, min_size);
        if all.contains(hit) {
            let i = choose|i: int| 0 <= i < all.len() && all[i] == hit;
            if i < earlier.len() {
                assert(earlier[i] == hit);
            } else {
                assert(last[i - earlier.len()] == hit);
            }
        }
        if earlier.contains(hit) {
            let i = choose|i: int| 0 <= i < earlier.len() && earlier[i] == hit;
            assert(all[i] == hit);
        }
        if last.contains(hit) {
            let i = choose|i: int| 0 <= i < last.len() && last[i] == hit;
            assert(all[earlier.len() + i] == hit);
        }
        if (n - 1) * WORK_CHUNK <= hit.offset < n * WORK_CHUNK {
            assert(range_start(hit.offset) == (n - 1) * WORK_CHUNK);
        }
    }
}

/// A hit is recovered if and only if the data hold it at its offset and the scan
/// of the range that it lies in comes to stand there. What the hit is depends on
/// the data and its offset alone: a block that straddles the end of its range is
/// decoded like any other.
pub proof fn lemma_recovered_iff(data: Seq<u8>, min_size: int, hit: HitView)
    ensures
        recovered(data, min_size).contains(hit) <==> {
            &&& 0 <= hit.offset < data.len()
            &&& cursor_at(data, range_start(hit.offset), hit.offset, min_size) == hit.offset
            &&& hit_at(data, hit.offset, min_size) == Some(hit)
        },
{
    lemma_first_chunks_iff(data, chunk_count(data.len() as int), min_size, hit);
}

/// Splitting the work loses a hit of the undivided scan in one case only: the
/// scan of the range that the hit lies in passes over its offset.
pub proof fn lemma_lost_only_if_passed_over(data: Seq<u8>, min_size: int, hit: HitView)
    requires
        scan(data, 0, data.len() as int, min_size).contains(hit),
    ensures
        recovered(data, min_size).contains(hit) <==> cursor_at(
            data,
            range_start(hit.offset),
            hit.offset,
            min_size,
        ) == hit.offset,
{
    lemma_hit_in_range(data, 0, data.len() as int, min_size, hit);
    lemma_recovered_iff(data, min_size, hit);
}

/// The hits of the first `n` ranges come in the order of their offsets.
proof fn lemma_first_chunks_in_order(data: Seq<u8>, n: int, min_size: int, i: int, j: int)
    requires
        0 <= n,
        0 <= i < j < first_chunks(data, n, min_size).len(),
    ensures
        first_chunks(data, n, min_size)[i].offset < first_chunks(data, n, min_size)[j].offset,
    decreases n,
{
    let earlier = first_chunks(data, n - 1, min_size);
    let last = chunk_hits(data, n - 1, min_size);
    let all = first_chunks(data, n, min_size);
    let start = (n - 1) * WORK_CHUNK;
    let end = min(n * WORK_CHUNK, data.len() as int);
    if j < earlier.len() {
        lemma_first_chunks_in_order(data, n - 1, min_size, i, j);
    } else {
        let b = last[j - earlier.len()];
        assert(last.contains(b));
        lemma_hit_in_range(data, start, end, min_size, b);
        if i < earlier.len() {
            assert(earlier.contains(earlier[i]));
            lemma_first_chunks_iff(data, n - 1, min_size, earlier[i]);
        } else {
            let a = last[i - earlier.len()];
            assert(last.contains(a));
            lemma_hit_in_range(data, start, end, min_size, a);
            lemma_hit_bounds(data, a.offset, min_size);
            lemma_hits_in_order(data, start, end, min_size, i - earlier.len(), j - earlier.len());
        }
    }
}

/// Pages are recovered in scan order: by ascending offset, across all ranges.
pub proof fn lemma_recovered_in_order(data: Seq<u8>, min_size: int, i: int, j: int)
    requires
        0 <= i < j < recovered(data, min_size).len(),
    ensures
        recovered(data, min_size)[i].offset < recovered(data, min_size)[j].offset,
{
    lemma_first_chunks_in_order(data, chunk_count(data.len() as int), min_size, i, j);
}

/// Every recovered page is a full page out of at most a page's worth of
/// compressed bytes, which start on a `CHUNK_ALIGN` boundary of the data.
pub proof fn lemma_recovered_pages(data: Seq<u8>, min_size: int, hit: HitView)
    requires
        recovered(data, min_size).contains(hit),
    ensures
        hit.well_formed(),
        hit.offset % CHUNK_ALIGN as int == 0,
{
    lemma_recovered_iff(data, min_size, hit);
    lemma_hit_bounds(data, hit.offset, min_size);
    let start = range_start(hit.offset);
    lemma_found_iff_visited(data, start, hit.offset + 1, min_size, hit);
    lemma_hits_aligned(data, start, hit.offset + 1, min_size, hit);
}

/// Hits in the order of their offsets are determined by which hits they are.
proof fn lemma_ordered_hits_equal(a: Seq<HitView>, b: Seq<HitView>)
    requires
        forall|i: int, j: int| 0 <= i < j < a.len() ==> a[i].offset < a[j].offset,
        forall|i: int, j: int| 0 <= i < j < b.len() ==> b[i].offset < b[j].offset,
        forall|hit: HitView| a.contains(hit) <==> b.contains(hit),
    ensures
        a == b,
    decreases a.len(),
{
    if a.len() == 0 {
        if b.len() > 0 {
            assert(b.contains(b[0]));
        }
        assert(a =~= b);
    } else {
        assert(a.contains(a.last()));
        assert(b.contains(a.last()));
        assert(b.contains(b.last()));
        assert(a.last() == b.last());
        let x = a.drop_last();
        let y = b.drop_last();
        assert forall|hit: HitView| x.contains(hit) <==> y.contains(hit) by {
            if x.contains(hit) {
                let i = choose|i: int| 0 <= i < x.len() && x[i] == hit;
                assert(a[i] == hit);
                assert(b.contains(hit));
                let j = choose|j: int| 0 <= j < b.len() && b[j] == hit;
                assert(y[j] == hit);
            }
            if y.contains(hit) {
                let i = choose|i: int| 0 <= i < y.len() && y[i] == hit;
                assert(b[i] == hit);
                assert(a.contains(hit));
                let j = choose|j: int| 0 <= j < a.len() && a[j] == hit;
                assert(x[j] == hit);
            }
        }
        lemma_ordered_hits_equal(x, y);
        assert(a =~= x.push(a.last()));
        assert(b =~= y.push(b.last()));
    }
}

/// Whether the scan of each range comes to stand at the same hits as the
/// undivided scan does.
pub open spec fn ranges_agree(data: Seq<u8>, min_size: int) -> bool {
    forall|offset: int|
        0 <= offset < data.len() && #[trigger] hit_at(data, offset, min_size) is Some ==> (
        cursor_at(data, range_start(offset), offset, min_size) == offset <==> cursor_at(
            data,
            0,
            offset,
            min_size,
        ) == offset)
}

/// Splitting the work changes nothing if and only if the scan of each range
/// comes to stand at the same hits as the undivided scan does.
pub proof fn lemma_split_changes_nothing_iff(data: Seq<u8>, min_size: int)
    ensures
        recovered(data, min_size) == scan(data, 0, data.len() as int, min_size) <==> ranges_agree(
            data,
            min_size,
        ),
{
    let a = recovered(data, min_size);
    let b = scan(data, 0, data.len() as int, min_size);
    assert forall|hit: HitView| #[trigger] a.contains(hit) <==> {
        &&& 0 <= hit.offset < data.len()
        &&& cursor_at(data, range_start(hit.offset), hit.offset, min_size) == hit.offset
        &&& hit_at(data, hit.offset, min_size) == Some(hit)
    } by {
        lemma_recovered_iff(data, min_size, hit);
    }
    assert forall|hit: HitView| #[trigger] b.contains(hit) <==> {
        &&& 0 <= hit.offset < data.len()
        &&& cursor_at(data, 0, hit.offset, min_size) == hit.offset
        &&& hit_at(data, hit.offset, min_size) == Some(hit)
    } by {
        lemma_found_iff_visited(data, 0, data.len() as int, min_size, hit);
    }
    if ranges_agree(data, min_size) {
        assert forall|i: int, j: int| 0 <= i < j < a.len() implies a[i].offset < a[j].offset by {
            lemma_recovered_in_order(data, min_size, i, j);
        }
        assert forall|i: int, j: int| 0 <= i < j < b.len() implies b[i].offset < b[j].offset by {
            assert(b.contains(b[i]));
            lemma_hit_bounds(data, b[i].offset, min_size);
            lemma_hits_in_order(data, 0, data.len() as int, min_size, i, j);
        }
        assert forall|hit: HitView| a.contains(hit) <==> b.contains(hit) by {
            assert(hit_at(data, hit.offset, min_size) is Some || !a.contains(hit));
        }
        lemma_ordered_hits_equal(a, b);
    }
    if a == b {
        assert forall|offset: int|
            0 <= offset < data.len() && #[trigger] hit_at(
                data,
                offset,
                min_size,
            ) is Some implies (cursor_at(data, range_start(offset), offset, min_size) == offset
            <==> cursor_at(data, 0, offset, min_size) == offset) by {
            let hit = hit_at(data, offset, min_size)->0;
            assert(hit.offset == offset);
            assert(a.contains(hit) <==> b.contains(hit));
        }
    }
}

/// Ranges start on `CHUNK_ALIGN` boundaries and follow upon each other.
proof fn lemma_range_start(p: int, q: int)
    requires
        0 <= p,
        p % CHUNK_ALIGN as int == 0,
    ensures
        0 <= range_start(p) <= p < range_start(p) + WORK_CHUNK,
        (p - range_start(p)) % CHUNK_ALIGN as int == 0,
        range_start(p) <= q < range_start(p) + WORK_CHUNK ==> range_start(q) == range_start(p),
{
}

/// Nothing decodable is missed, however the work is split: where, on a
/// `CHUNK_ALIGN` boundary, the next `CHUNK_ALIGN` bytes are not all zero and at
/// least `min_size` bytes can be decoded, the compressed bytes of a recovered
/// page, rounded up to the next boundary, take that place in.
pub proof fn lemma_recovery_complete(data: Seq<u8>, min_size: int, p: int)
    requires
        0 <= p < data.len(),
        p % CHUNK_ALIGN as int == 0,
        !all_zero(data.subrange(p, min(p + CHUNK_ALIGN, data.len() as int))),
        decode_at(data, p).data.len() >= min_size,
    ensures
        exists|hit: HitView| #[trigger]
            recovered(data, min_size).contains(hit) && covers(hit, p),
{
    let start = range_start(p);
    let end = min(start + WORK_CHUNK, data.len() as int);
    lemma_range_start(p, p);
    lemma_scan_complete(data, start, end, min_size, p);
    let hit = choose|hit: HitView| #[trigger]
        scan(data, start, end, min_size).contains(hit) && covers(hit, p);
    lemma_found_iff_visited(data, start, end, min_size, hit);
    lemma_range_start(p, hit.offset);
    lemma_recovered_iff(data, min_size, hit);
}

/// Totals are sums, and pages are laid end to end: those of two runs of hits, one
/// behind the other, are those of the first and those of the second.
pub proof fn lemma_totals_add_up(a: Seq<HitView>, b: Seq<HitView>)
    ensures
        compressed_bytes_of(a + b) == compressed_bytes_of(a) + compressed_bytes_of(b),
        pages_of(a + b) == pages_of(a) + pages_of(b),
    decreases b.len(),
{
    if b.len() == 0 {
        assert(a + b =~= a);
        assert(pages_of(a) + pages_of(b) =~= pages_of(a));
    } else {
        assert((a + b).drop_last() =~= a + b.drop_last());
        lemma_totals_add_up(a, b.drop_last());
        assert(pages_of(a + b) =~= pages_of(a) + pages_of(b));
    }
}

/// No hits come to nothing, and one hit to its own page and compressed length.
pub proof fn lemma_totals_of_one(hit: HitView)
    ensures
        compressed_bytes_of(Seq::empty()) == 0,
        pages_of(Seq::empty()) == Seq::<u8>::empty(),
        compressed_bytes_of(seq![hit]) == hit.compressed_len,
        pages_of(seq![hit]) == hit.page,
{
    reveal_with_fuel(compressed_bytes_of, 2);
    reveal_with_fuel(pages_of, 2);
    assert(seq![hit].drop_last() =~= Seq::empty());
    assert(pages_of(seq![hit]) =~= hit.page);
}

/// Hits put together are all there, range by range and in order, with the fields
/// that they have.
pub proof fn lemma_joined_adds(chunks: Seq<Vec<Hit>>, n: int)
    requires
        0 <= n < chunks.len(),
    ensures
        joined(chunks, 0) == Seq::<HitView>::empty(),
        ({
            let fewer = joined(chunks, n);
            let more = joined(chunks, n + 1);
            &&& more.len() == fewer.len() + chunks[n]@.len()
            &&& more.take(fewer.len() as int) == fewer
            &&& forall|i: int|
                #![trigger chunks[n]@[i]]
                0 <= i < chunks[n]@.len() ==> {
                    let hit = more[fewer.len() + i];
                    &&& hit.offset == chunks[n]@[i].offset
                    &&& hit.page == chunks[n]@[i].page@
                    &&& hit.compressed_len == chunks[n]@[i].compressed_len
                }
        }),
{
    let fewer = joined(chunks, n);
    let more = joined(chunks, n + 1);
    assert(more.take(fewer.len() as int) =~= fewer);
    assert forall|i: int|
        #![trigger chunks[n]@[i]]
        0 <= i < chunks[n]@.len() implies more[fewer.len() + i] == chunks[n]@[i]@ by {
        assert(hit_views(chunks[n]@)[i] == chunks[n]@[i]@);
    }
}

/// The hits of the first `n` ranges hold those of each.
proof fn lemma_first_chunks_hold(data: Seq<u8>, n: int, min_size: int, k: int) -> (after: Seq<
    HitView,
>)
    requires
        0 <= k < n,
    ensures
        first_chunks(data, n, min_size) == first_chunks(data, k, min_size) + chunk_hits(
            data,
            k,
            min_size,
        ) + after,
        forall|i: int|
            0 <= i < after.len() ==> (#[trigger] after[i]).offset >= (k + 1) * WORK_CHUNK,
    decreases n,
{
    let first = first_chunks(data, k, min_size) + chunk_hits(data, k, min_size);
    if k == n - 1 {
        assert(first_chunks(data, n, min_size) =~= first + Seq::empty());
        Seq::empty()
    } else {
        let earlier = lemma_first_chunks_hold(data, n - 1, min_size, k);
        let last = chunk_hits(data, n - 1, min_size);
        let after = earlier + last;
        assert(first_chunks(data, n, min_size) =~= first + after);
        assert forall|i: int| 0 <= i < after.len() implies (#[trigger] after[i]).offset >= (k + 1)
            * WORK_CHUNK by {
            if i >= earlier.len() {
                let hit = last[i - earlier.len()];
                assert(last.contains(hit));
                lemma_hit_in_range(
                    data,
                    (n - 1) * WORK_CHUNK,
                    min(n * WORK_CHUNK, data.len() as int),
                    min_size,
                    hit,
                );
            }
        }
        after
    }
}

/// Each range of 64 MiB is recovered by a scan of its own, which takes up
/// candidates from the start of the range to its end: the hits of that scan stand
/// together, between hits that start before the range and hits that start behind
/// it.
pub proof fn lemma_recovered_by_range(data: Seq<u8>, min_size: int, start: int, end: int)
    requires
        0 <= start < data.len(),
        start % 0x400_0000 == 0,
        end == start + 0x400_0000 || (end == data.len() && end < start + 0x400_0000),
    ensures
        exists|before: Seq<HitView>, after: Seq<HitView>|
            {
                &&& recovered(data, min_size) == #[trigger] (before + scan(
                    data,
                    start,
                    end,
                    min_size,
                ) + after)
                &&& forall|i: int| 0 <= i < before.len() ==> (#[trigger] before[i]).offset < start
                &&& forall|i: int| 0 <= i < after.len() ==> (#[trigger] after[i]).offset >= end
            },
{
    let k = start / 0x400_0000;
    let n = chunk_count(data.len() as int);
    let before = first_chunks(data, k, min_size);
    let after = lemma_first_chunks_hold(data, n, min_size, k);
    assert forall|i: int| 0 <= i < before.len() implies (#[trigger] before[i]).offset < start by {
        assert(before.contains(before[i]));
        lemma_first_chunks_iff(data, k, min_size, before[i]);
    }
    let part = scan(data, start, end, min_size);
    if end > data.len() {
        lemma_larger_end(data, start, data.len() as int, end, min_size);
        assert forall|i: int| 0 <= i < part.len() implies (#[trigger] part[i]).offset
            < data.len() by {
            assert(part.contains(part[i]));
            lemma_hit_in_range(data, start, end, min_size, part[i]);
        }
        let short = scan(data, start, data.len() as int, min_size);
        if part.len() > short.len() {
            assert(part[short.len() as int].offset >= data.len());
        }
        assert(part =~= short);
    }
    assert(chunk_hits(data, k, min_size) == part);
    assert(recovered(data, min_size) == before + part + after);
}

} // verus!
