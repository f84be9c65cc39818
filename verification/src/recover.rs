//! Recovery of all pages of one piece of data, spread over the available cores.

use rayon::iter::{IntoParallelRefIterator, ParallelIterator};
use vstd::prelude::*;

use crate::format::min;
use crate::scan::{hit_views, scan, scan_range, Hit, HitView};
use crate::xpress::PAGE_SIZE;

verus! {

/// Size of the offset ranges that the work is split into: 64 MiB. It is kept well above
/// `PAGE_SIZE`, so that the overhead of the split stays negligible. The decode
/// window of a candidate may reach past the end of its range.
pub const WORK_CHUNK: usize = 0x400_0000;

/// What a recovery adds up to.
pub struct Totals {
    /// How many pages were recovered.
    pub pages: u64,
    /// How many compressed bytes they took up.
    pub compressed_bytes: u64,
}

/// How many ranges data of `len` bytes is split into. There is always one.
pub open spec fn chunk_count(len: int) -> int {
    if len <= WORK_CHUNK {
        1
    } else {
        (len + WORK_CHUNK - 1) / WORK_CHUNK as int
    }
}

/// The hits of the `k`th range.
pub open spec fn chunk_hits(data: Seq<u8>, k: int, min_size: int) -> Seq<HitView> {
    scan(data, k * WORK_CHUNK, min((k + 1) * WORK_CHUNK, data.len() as int), min_size)
}

/// The hits of the first `n` ranges, one range after the other.
pub open spec fn first_chunks(data: Seq<u8>, n: int, min_size: int) -> Seq<HitView>
    decreases n,
{
    if n <= 0 {
        Seq::empty()
    } else {
        first_chunks(data, n - 1, min_size) + chunk_hits(data, n - 1, min_size)
    }
}

/// All hits in `data`, in scan order.
pub open spec fn recovered(data: Seq<u8>, min_size: int) -> Seq<HitView> {
    first_chunks(data, chunk_count(data.len() as int), min_size)
}

/// The pages of `hits`, one after the other.
pub open spec fn pages_of(hits: Seq<HitView>) -> Seq<u8>
    decreases hits.len(),
{
    if hits.len() == 0 {
        Seq::empty()
    } else {
        pages_of(hits.drop_last()) + hits.last().page
    }
}

/// How many compressed bytes `hits` take up together.
pub open spec fn compressed_bytes_of(hits: Seq<HitView>) -> int
    decreases hits.len(),
{
    if hits.len() == 0 {
        0
    } else {
        compressed_bytes_of(hits.drop_last()) + hits.last().compressed_len
    }
}

/// Applies `f` to every item on rayon's thread pool: `par_iter` on the slice,
/// `map`, and `collect` into a `Vec`.
///
/// What is taken on trust is that rayon's `collect` of an indexed iterator keeps
/// the order of the items: the `i`th result is one that `f` returned for the
/// `i`th item. How the calls are spread over threads is left unsaid, and so is
/// whether the machine can start rayon's global pool.
#[verifier::external_body]
fn par_map<T: Sync, R: Send, F: Fn(&T) -> R + Sync + Send>(items: &Vec<T>, f: F) -> (results: Vec<
    R,
>)
    requires
        forall|i: int| 0 <= i < items@.len() ==> call_requires(f, (&#[trigger] items@[i],)),
    ensures
        results@.len() == items@.len(),
        forall|i: int|
            0 <= i < results@.len() ==> call_ensures(f, (&items@[i],), #[trigger] results@[i]),
{
    items.par_iter().map(f).collect()
}

/// The offsets at which the ranges start.
fn chunk_starts(len: usize) -> (starts: Vec<usize>)
    ensures
        starts@.len() == chunk_count(len as int),
        forall|k: int| 0 <= k < starts@.len() ==> #[trigger] starts@[k] == k * WORK_CHUNK,
{
    let mut starts: Vec<usize> = Vec::new();
    let mut start: usize = 0;
    starts.push(start);
    while len - start > WORK_CHUNK
        invariant
            starts@.len() >= 1,
            start == (starts@.len() - 1) * WORK_CHUNK,
            start <= len,
            start == 0 || start < len,
            forall|k: int| 0 <= k < starts@.len() ==> #[trigger] starts@[k] == k * WORK_CHUNK,
        decreases len - start,
    {
        start += WORK_CHUNK;
        starts.push(start);
    }
    starts
}

/// Whether `hits` are the hits of the range that starts at `start`.
spec fn found_at(data: Seq<u8>, start: int, min_size: int, hits: Seq<Hit>) -> bool {
    &&& hit_views(hits) == scan(data, start, min(start + WORK_CHUNK, data.len() as int), min_size)
    &&& forall|i: int| 0 <= i < hits.len() ==> (#[trigger] hits[i])@.well_formed()
}

/// Scans the range that starts at `start`.
fn scan_chunk(data: &[u8], start: usize, min_size: usize) -> (hits: Vec<Hit>)
    requires
        start <= data.len(),
    ensures
        found_at(data@, start as int, min_size as int, hits@),
{
    let end: usize = if data.len() - start < WORK_CHUNK {
        data.len()
    } else {
        start + WORK_CHUNK
    };
    scan_range(data, start, end, min_size)
}

/// The hits of the first `n` of `chunks`, one after the other.
pub open spec fn joined(chunks: Seq<Vec<Hit>>, n: int) -> Seq<HitView>
    decreases n,
{
    if n <= 0 {
        Seq::empty()
    } else {
        joined(chunks, n - 1) + hit_views(chunks[n - 1]@)
    }
}

/// Puts the pages of all hits one after the other, and counts them.
pub fn gather(chunks: &Vec<Vec<Hit>>) -> (result: (Vec<u8>, Totals))
    requires
        forall|k: int, i: int|
            0 <= k < chunks@.len() && 0 <= i < chunks@[k]@.len()
                ==> (#[trigger] chunks@[k]@[i])@.well_formed(),
    ensures
        ({
            let hits = joined(chunks@, chunks@.len() as int);
            &&& result.0@ == pages_of(hits)
            &&& result.1.pages == hits.len()
            &&& result.1.compressed_bytes == compressed_bytes_of(hits)
        }),
        result.0@.len() == result.1.pages * PAGE_SIZE,
        result.1.pages <= result.1.compressed_bytes <= result.0@.len(),
{
    let mut out: Vec<u8> = Vec::new();
    let mut totals: Totals = Totals { pages: 0, compressed_bytes: 0 };
    let ghost mut done: Seq<HitView> = Seq::empty();
    assert(out@ =~= pages_of(done));
    let mut k: usize = 0;
    while k < chunks.len()
        invariant
            forall|k: int, i: int|
                0 <= k < chunks@.len() && 0 <= i < chunks@[k]@.len()
                    ==> (#[trigger] chunks@[k]@[i])@.well_formed(),
            k <= chunks@.len(),
            done == joined(chunks@, k as int),
            out@ == pages_of(done),
            totals.pages == done.len(),
            totals.compressed_bytes == compressed_bytes_of(done),
            out@.len() == totals.pages * PAGE_SIZE,
            totals.pages <= totals.compressed_bytes <= out@.len(),
        decreases chunks@.len() - k,
    {
        let hits: &Vec<Hit> = &chunks[k];
        let ghost earlier = done;
        assert(done =~= earlier + hit_views(hits@.take(0)));
        let mut i: usize = 0;
        while i < hits.len()
            invariant
                forall|i: int| 0 <= i < hits@.len() ==> (#[trigger] hits@[i])@.well_formed(),
                i <= hits@.len(),
                done == earlier + hit_views(hits@.take(i as int)),
                out@ == pages_of(done),
                totals.pages == done.len(),
                totals.compressed_bytes == compressed_bytes_of(done),
                out@.len() == totals.pages * PAGE_SIZE,
                totals.pages <= totals.compressed_bytes <= out@.len(),
            decreases hits@.len() - i,
        {
            let hit: &Hit = &hits[i];
            let ghost before = out@;
            out.extend_from_slice(hit.page.as_slice());
            assert(out@ =~= before + hit.page@);
            proof {
                let longer = done.push(hit@);
                assert(longer.drop_last() =~= done);
                assert(longer =~= earlier + hit_views(hits@.take(i + 1)));
                assert(out.len() == out@.len());
                done = longer;
            }
            totals.pages += 1;
            totals.compressed_bytes += hit.compressed_len as u64;
            i += 1;
        }
        assert(hits@.take(i as int) =~= hits@);
        k += 1;
    }
    (out, totals)
}

/// Recovers all pages of `data`: the pages, one after the other in scan order,
/// and what they add up to.
pub fn scan_slice(data: &[u8], min_size: usize) -> (result: (Vec<u8>, Totals))
    ensures
        result.0@ == pages_of(recovered(data@, min_size as int)),
        result.1.pages == recovered(data@, min_size as int).len(),
        result.1.compressed_bytes == compressed_bytes_of(recovered(data@, min_size as int)),
        result.0@.len() == result.1.pages * PAGE_SIZE,
        result.1.pages <= result.1.compressed_bytes <= result.0@.len(),
{
    let starts: Vec<usize> = chunk_starts(data.len());
    let scan_at = |start: &usize| -> (hits: Vec<Hit>)
        requires
            *start <= data.len(),
        ensures
            found_at(data@, *start as int, min_size as int, hits@),
        { scan_chunk(data, *start, min_size) };
    let chunks: Vec<Vec<Hit>> = par_map(&starts, scan_at);
    proof {
        lemma_joined_chunks(data@, min_size as int, chunks@, chunks@.len() as int);
    }
    gather(&chunks)
}

/// Hits that were found range by range, put together, are the hits of those
/// ranges.
proof fn lemma_joined_chunks(data: Seq<u8>, min_size: int, chunks: Seq<Vec<Hit>>, n: int)
    requires
        0 <= n <= chunks.len(),
        forall|k: int|
            0 <= k < chunks.len() ==> hit_views((#[trigger] chunks[k])@) == chunk_hits(
                data,
                k,
                min_size,
            ),
    ensures
        joined(chunks, n) == first_chunks(data, n, min_size),
    decreases n,
{
    if n > 0 {
        lemma_joined_chunks(data, min_size, chunks, n - 1);
    }
}

impl Totals {
    /// These totals and `other` together; `None` if a count outgrows its type.
    pub fn checked_add(&self, other: &Totals) -> (sum: Option<Totals>)
        ensures
            match sum {
                Some(sum) => {
                    &&& sum.pages == self.pages + other.pages
                    &&& sum.compressed_bytes == self.compressed_bytes + other.compressed_bytes
                },
                None => self.pages + other.pages > u64::MAX || self.compressed_bytes
                    + other.compressed_bytes > u64::MAX,
            },
    {
        match (
            self.pages.checked_add(other.pages),
            self.compressed_bytes.checked_add(other.compressed_bytes),
        ) {
            (Some(pages), Some(compressed_bytes)) => Some(Totals { pages, compressed_bytes }),
            _ => None,
        }
    }

    /// How many bytes the recovered pages hold together; `None` if that outgrows
    /// its type.
    pub fn decompressed_bytes(&self) -> (bytes: Option<u64>)
        ensures
            match bytes {
                Some(bytes) => bytes == self.pages * PAGE_SIZE,
                None => self.pages * PAGE_SIZE > u64::MAX,
            },
    {
        self.pages.checked_mul(PAGE_SIZE as u64)
    }
}

} // verus!
