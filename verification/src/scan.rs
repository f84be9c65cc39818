//! Brute-force scanner: walks 16-byte-aligned offsets of a byte slice in search
//! of Plain LZ77 (Xpress) compressed pages.
//!
//! - There is one decode per candidate offset.
//! - A candidate that decompresses to at least `min_size` bytes is a hit. It is
//!   truncated or zero-padded to a full page, so truncated pages are recovered.
//! - A window that is all zero is skipped as a whole.

use vstd::prelude::*;

use crate::format::{decode, min, Output};
use crate::format_laws::lemma_decode_bounds;
use crate::xpress::{
    decompress, lemma_next_multiple, next_multiple, round_up_next, Decoded, CHUNK_ALIGN, PAGE_SIZE,
};

verus! {

/// A recovered page.
pub struct Hit {
    /// Offset of the hit within the slice that was scanned.
    pub offset: usize,
    /// Always exactly `PAGE_SIZE` bytes: real decoded bytes, truncated or
    /// zero-padded as needed.
    pub page: Vec<u8>,
    /// How many compressed bytes this hit accounted for (for statistics only).
    pub compressed_len: usize,
}

/// What a hit amounts to.
pub struct HitView {
    /// Where the compressed page starts.
    pub offset: int,
    /// The page.
    pub page: Seq<u8>,
    /// How many compressed bytes it takes up.
    pub compressed_len: int,
}

impl View for Hit {
    type V = HitView;

    open spec fn view(&self) -> HitView {
        HitView {
            offset: self.offset as int,
            page: self.page@,
            compressed_len: self.compressed_len as int,
        }
    }
}

/// What a run of hits amounts to.
pub open spec fn hit_views(hits: Seq<Hit>) -> Seq<HitView> {
    hits.map_values(|hit: Hit| hit@)
}

impl HitView {
    /// What every hit keeps to: a full page, out of at least one and at most a
    /// page's worth of compressed bytes.
    pub open spec fn well_formed(self) -> bool {
        &&& self.page.len() == PAGE_SIZE
        &&& 1 <= self.compressed_len <= PAGE_SIZE
    }
}

/// Whether all bytes are zero.
pub open spec fn all_zero(bytes: Seq<u8>) -> bool {
    forall|i: int| 0 <= i < bytes.len() ==> bytes[i] == 0
}

/// The bytes that a candidate at `pos` may take up: a page's worth, or what is
/// left of the data.
pub open spec fn window(data: Seq<u8>, pos: int) -> Seq<u8> {
    data.subrange(pos, min(pos + PAGE_SIZE, data.len() as int))
}

/// What the candidate at `pos` decodes to.
pub open spec fn decode_at(data: Seq<u8>, pos: int) -> Output {
    decode(window(data, pos), PAGE_SIZE as int)
}

/// `bytes` as a page: cut off, or filled up with zeros.
pub open spec fn as_page(bytes: Seq<u8>) -> Seq<u8> {
    Seq::new(
        PAGE_SIZE as nat,
        |i: int|
            if i < bytes.len() {
                bytes[i]
            } else {
                0
            },
    )
}

/// The hit at `pos`, if there is one: the window is not all zero, and decodes to
/// at least `min_size` bytes.
pub open spec fn hit_at(data: Seq<u8>, pos: int, min_size: int) -> Option<HitView> {
    let decoded = decode_at(data, pos);
    if all_zero(window(data, pos)) || decoded.data.len() < min_size {
        None
    } else {
        Some(
            HitView {
                offset: pos,
                page: as_page(decoded.data),
                compressed_len: if decoded.consumed < 1 {
                    1
                } else {
                    decoded.consumed
                },
            },
        )
    }
}

/// How far the scan moves on from `pos`: past the window where that is all zero,
/// past the consumed bytes to the next boundary after a hit, and to the next
/// boundary after a miss.
pub open spec fn stride(data: Seq<u8>, pos: int, min_size: int) -> int {
    if all_zero(window(data, pos)) {
        window(data, pos).len() as int
    } else if hit_at(data, pos, min_size) is Some {
        next_multiple(decode_at(data, pos).consumed, CHUNK_ALIGN as int)
    } else {
        CHUNK_ALIGN as int
    }
}

/// The scan always makes progress.
pub proof fn lemma_progress(data: Seq<u8>, pos: int, min_size: int)
    requires
        0 <= pos < data.len(),
    ensures
        stride(data, pos, min_size) >= 1,
{
    lemma_decode_bounds(window(data, pos), PAGE_SIZE as int);
    lemma_next_multiple(decode_at(data, pos).consumed, CHUNK_ALIGN as int);
}

/// The hits of a scan that stands at `pos` and takes up no candidate at or
/// behind `end`, in the order in which it meets them.
pub open spec fn scan(data: Seq<u8>, pos: int, end: int, min_size: int) -> Seq<HitView>
    decreases
            if pos < data.len() {
                data.len() - pos
            } else {
                0
            },
{
    if 0 <= pos < data.len() && pos < end {
        proof {
            lemma_progress(data, pos, min_size);
        }
        let rest = scan(data, pos + stride(data, pos, min_size), end, min_size);
        match hit_at(data, pos, min_size) {
            Some(hit) => seq![hit] + rest,
            None => rest,
        }
    } else {
        Seq::empty()
    }
}

/// Whether all bytes of `buf` are zero.
pub fn is_all_zero(buf: &[u8]) -> (zero: bool)
    ensures
        zero == all_zero(buf@),
        zero <==> (forall|i: int| 0 <= i < buf@.len() ==> buf@[i] == 0),
{
    for i in 0..buf.len()
        invariant
            forall|j: int| 0 <= j < i ==> buf@[j] == 0,
    {
        if buf[i] != 0 {
            return false;
        }
    }
    true
}

/// Scans `data[start..end]` for compressed pages. `end` is a soft bound, on
/// where new candidates may start: the decode window of a candidate may reach
/// past it, up to `data.len()`, since a compressed block can straddle whatever
/// boundary a caller chose to split the work at.
pub fn scan_range(data: &[u8], start: usize, end: usize, min_size: usize) -> (hits: Vec<Hit>)
    ensures
        hit_views(hits@) == scan(data@, start as int, end as int, min_size as int),
        hits@.len() == scan(data@, start as int, end as int, min_size as int).len(),
        forall|i: int|
            #![trigger hits@[i]]
            0 <= i < hits@.len() ==> {
                let hit = scan(data@, start as int, end as int, min_size as int)[i];
                &&& hits@[i].offset == hit.offset
                &&& hits@[i].page@ == hit.page
                &&& hits@[i].compressed_len == hit.compressed_len
            },
        forall|i: int| 0 <= i < hits@.len() ==> (#[trigger] hits@[i])@.well_formed(),
{
    let mut hits: Vec<Hit> = Vec::new();
    let mut pos: usize = start;
    let ghost whole = scan(data@, start as int, end as int, min_size as int);
    assert(whole =~= hit_views(hits@) + whole);
    while pos < end && pos < data.len()
        invariant
            whole == scan(data@, start as int, end as int, min_size as int),
            whole == hit_views(hits@) + scan(data@, pos as int, end as int, min_size as int),
            forall|i: int| 0 <= i < hits@.len() ==> (#[trigger] hits@[i])@.well_formed(),
        decreases data@.len() - pos,
    {
        let room: usize = data.len() - pos;
        let width: usize = if room < PAGE_SIZE {
            room
        } else {
            PAGE_SIZE
        };
        let candidate: &[u8] = vstd::slice::slice_subrange(data, pos, pos + width);
        proof {
            lemma_progress(data@, pos as int, min_size as int);
        }
        let ghost next = pos + stride(data@, pos as int, min_size as int);
        let ghost rest = scan(data@, next, end as int, min_size as int);
        let advance: usize;
        if is_all_zero(candidate) {
            advance = width;
        } else {
            let decoded: Decoded = decompress(candidate, PAGE_SIZE);
            let consumed: usize = decoded.consumed;
            if decoded.data.len() >= min_size {
                let mut page: Vec<u8> = decoded.data;
                page.resize(PAGE_SIZE, 0);
                assert(page@ =~= as_page(decoded.data@));
                let compressed_len: usize = if consumed < 1 {
                    1
                } else {
                    consumed
                };
                hits.push(Hit { offset: pos, page, compressed_len });
                advance = round_up_next(consumed, CHUNK_ALIGN);
            } else {
                advance = CHUNK_ALIGN;
            }
        }
        assert(whole =~= hit_views(hits@) + rest);
        if advance >= room {
            assert(rest =~= Seq::empty());
            assert(whole =~= hit_views(hits@));
            return hits;
        }
        pos += advance;
    }
    assert(whole =~= hit_views(hits@));
    hits
}

} // verus!
