//! Decoder for "Plain LZ77", the algorithm behind Windows'
//! `COMPRESSION_FORMAT_XPRESS | COMPRESSION_ENGINE_STANDARD`: the format in which
//! the Windows 8/10 memory manager compresses pages before it stores them in the
//! `MemCompression` process or a page file.
//!
//! The decoder tolerates truncation: where the stream ends early or turns out
//! to be bogus it stops, and returns whatever it has produced.

use vstd::arithmetic::div_mod::{
    lemma_fundamental_div_mod, lemma_mod_bound, lemma_mod_decreases, lemma_mod_multiples_basic,
    lemma_mod_sub_multiples_vanish, lemma_small_mod,
};
use vstd::prelude::*;

use crate::format::{
    decode, decode_from, le16, le32, min, read_length, read_long_length, read_match, repeat_tail,
    Cursor, LengthField, MatchToken, Output,
};

verus! {

/// Windows memory-manager pages are always 4096 bytes.
pub const PAGE_SIZE: usize = 4096;

/// Compressed chunks are stored on 16-byte boundaries.
pub const CHUNK_ALIGN: usize = 16;

/// The result of a decode.
pub struct Decoded {
    /// Decompressed bytes actually produced (may be shorter or longer than
    /// `PAGE_SIZE`: the caller decides how to pad or truncate).
    pub data: Vec<u8>,
    /// How many bytes of the input were consumed. The scanner learns from it
    /// where the next candidate chunk starts, also after a truncated or failed
    /// decode.
    pub consumed: usize,
}

impl View for Decoded {
    type V = Output;

    open spec fn view(&self) -> Output {
        Output { data: self.data@, consumed: self.consumed as int }
    }
}

/// A length field that the decoder has read.
struct Length {
    next: usize,
    shared: Option<usize>,
    length: Option<usize>,
}

/// A match token that the decoder has read.
struct Match {
    distance: usize,
    field: Length,
}

/// The position behind an optional index.
spec fn place(at: Option<usize>) -> Option<int> {
    match at {
        None => None,
        Some(at) => Some(at as int),
    }
}

impl View for Length {
    type V = LengthField;

    closed spec fn view(&self) -> LengthField {
        LengthField {
            next: self.next as int,
            shared: place(self.shared),
            length: place(self.length),
        }
    }
}

impl View for Match {
    type V = MatchToken;

    closed spec fn view(&self) -> MatchToken {
        MatchToken { distance: self.distance as int, field: self.field@ }
    }
}

/// Reads the two bytes at `pos`, least significant first.
fn read_le16(input: &[u8], pos: usize) -> (word: u16)
    requires
        pos + 2 <= input.len(),
    ensures
        word == le16(input@, pos as int),
{
    input[pos] as u16 + 0x100 * (input[pos + 1] as u16)
}

/// Reads the four bytes at `pos`, least significant first.
fn read_le32(input: &[u8], pos: usize) -> (word: u32)
    requires
        pos + 4 <= input.len(),
    ensures
        word == le32(input@, pos as int),
{
    read_le16(input, pos) as u32 + 0x1_0000 * (read_le16(input, pos + 2) as u32)
}

/// Reads the length bytes that follow a half byte of 15.
fn long_length(input: &[u8], pos: usize, shared: Option<usize>) -> (field: Length)
    requires
        pos <= input@.len(),
    ensures
        field@ == read_long_length(input@, pos as int, place(shared)),
        pos <= field.next <= input@.len(),
        field.shared == shared,
        field.length matches Some(length) ==> length <= 0x1_0002,
{
    if pos == input.len() {
        return Length { next: pos, shared, length: None };
    }
    let byte: u8 = input[pos];
    if byte < 255 {
        return Length { next: pos + 1, shared, length: Some(byte as usize + 15 + 7 + 3) };
    }
    if input.len() - pos < 3 {
        return Length { next: pos + 1, shared, length: None };
    }
    let word: u16 = read_le16(input, pos + 1);
    if word < 15 + 7 {
        // Bogus data: the half byte covers this length.
        Length { next: pos + 3, shared, length: None }
    } else {
        Length { next: pos + 3, shared, length: Some(word as usize + 3) }
    }
}

/// Reads the length bytes that follow a match word whose low bits are 7.
///
/// The matches that need such bytes share the first of them two by two: one match
/// uses the lower half and hands on the position as `shared`, the next such match
/// uses the upper half.
fn extended_length(input: &[u8], pos: usize, shared: Option<usize>) -> (field: Length)
    requires
        pos <= input@.len(),
        shared matches Some(at) ==> at < pos,
    ensures
        field@ == read_length(input@, pos as int, place(shared)),
        pos <= field.next <= input@.len(),
        field.shared matches Some(at) ==> at < field.next,
        field.length matches Some(length) ==> length <= 0x1_0002,
{
    match shared {
        None => {
            if pos == input.len() {
                return Length { next: pos, shared: None, length: None };
            }
            let half: u8 = input[pos] % 16;
            if half < 15 {
                Length { next: pos + 1, shared: Some(pos), length: Some(half as usize + 7 + 3) }
            } else {
                long_length(input, pos + 1, Some(pos))
            }
        },
        Some(at) => {
            let half: u8 = input[at] / 16;
            if half < 15 {
                Length { next: pos, shared: None, length: Some(half as usize + 7 + 3) }
            } else {
                long_length(input, pos, None)
            }
        },
    }
}

/// Reads the match token at `pos`.
fn match_token(input: &[u8], pos: usize, shared: Option<usize>) -> (token: Match)
    requires
        pos <= input@.len(),
        shared matches Some(at) ==> at < pos,
    ensures
        token@ == read_match(input@, pos as int, place(shared)),
        pos <= token.field.next <= input@.len(),
        token.field.length is Some ==> pos < token.field.next && token.distance >= 1,
        token.field.shared matches Some(at) ==> at < token.field.next,
        token.field.length matches Some(length) ==> length <= 0x1_0002,
{
    if input.len() - pos < 2 {
        return Match { distance: 0, field: Length { next: pos, shared, length: None } };
    }
    let word: u16 = read_le16(input, pos);
    let low: u16 = word % 8;
    Match {
        distance: (word / 8) as usize + 1,
        field: if low == 7 {
            extended_length(input, pos + 2, shared)
        } else {
            Length { next: pos + 2, shared, length: Some(low as usize + 3) }
        },
    }
}

/// Appends `length` bytes of the last `distance` bytes of `out`, but lets `out`
/// grow no longer than `max_output`.
///
/// The copy goes byte by byte, because a match may overlap the bytes that it
/// writes: that is how runs are encoded.
fn copy_match(out: &mut Vec<u8>, distance: usize, length: usize, max_output: usize)
    requires
        1 <= distance <= old(out)@.len(),
        old(out)@.len() <= max_output,
    ensures
        final(out)@ == repeat_tail(
            old(out)@,
            distance as int,
            min(length as int, max_output - old(out)@.len()),
        ),
{
    let ghost before = out@;
    let mut src: usize = out.len() - distance;
    let mut copied: usize = 0;
    while copied < length && out.len() < max_output
        invariant
            1 <= distance <= before.len(),
            before.len() <= max_output,
            out@ == repeat_tail(before, distance as int, copied as int),
            out@.len() == before.len() + copied,
            src == before.len() - distance + copied,
            copied <= length,
            out@.len() <= max_output,
        decreases length - copied,
    {
        proof {
            if copied >= distance {
                lemma_mod_sub_multiples_vanish(copied as int, distance as int);
            } else {
                lemma_small_mod(copied as nat, distance as nat);
            }
        }
        let byte: u8 = out[src];
        out.push(byte);
        src += 1;
        copied += 1;
        assert(out@ =~= repeat_tail(before, distance as int, copied as int));
    }
}

/// Decompresses `input` as Plain LZ77, until `max_output` bytes are produced,
/// the input is exhausted, or the stream turns out to be bogus data.
///
/// Malformed input is no error: every read past the end and every senseless
/// back-reference ends the decode, which returns what was decoded so far.
pub fn decompress(input: &[u8], max_output: usize) -> (decoded: Decoded)
    ensures
        decoded@ == decode(input@, max_output as int),
        decoded.data@ == decode(input@, max_output as int).data,
        decoded.consumed == decode(input@, max_output as int).consumed,
        decoded.data@.len() <= max_output,
        decoded.consumed <= input@.len(),
{
    let expected: usize = if input.len() < 64 {
        64
    } else {
        input.len()
    };
    let mut out: Vec<u8> = Vec::with_capacity(
        if max_output < expected {
            max_output
        } else {
            expected
        },
    );
    let mut pos: usize = 0;
    let mut flags: u32 = 0;
    let mut bits: u32 = 0;
    let mut shared: Option<usize> = None;

    assert(out@ =~= Seq::empty());
    loop
        invariant
            pos <= input@.len(),
            bits <= 32,
            shared matches Some(at) ==> at < pos,
            out@.len() <= max_output,
            decode(input@, max_output as int) == decode_from(
                input@,
                max_output as int,
                Cursor { pos: pos as int, flags, bits: bits as int, shared: place(shared) },
                out@,
            ),
        decreases input@.len() - pos,
    {
        if out.len() >= max_output {
            return Decoded { data: out, consumed: pos };
        }
        if bits == 0 {
            if input.len() - pos < 4 {
                return Decoded { data: out, consumed: pos };
            }
            flags = read_le32(input, pos);
            pos += 4;
            bits = 32;
            continue;
        }
        bits -= 1;
        if flags & (1u32 << bits) == 0 {
            if pos == input.len() {
                return Decoded { data: out, consumed: pos };
            }
            out.push(input[pos]);
            pos += 1;
            continue;
        }
        let token: Match = match_token(input, pos, shared);
        pos = token.field.next;
        match token.field.length {
            Some(length) if token.distance <= out.len() => {
                shared = token.field.shared;
                copy_match(&mut out, token.distance, length, max_output);
            },
            _ => {
                return Decoded { data: out, consumed: pos };
            },
        }
    }
}

/// The start of the block of `align` numbers that follows the one `n` lies in.
pub open spec fn next_multiple(n: int, align: int) -> int {
    n - n % align + align
}

/// `next_multiple` is the least multiple of `align` greater than `n`.
pub proof fn lemma_next_multiple(n: int, align: int)
    requires
        align > 0,
    ensures
        next_multiple(n, align) % align == 0,
        n < next_multiple(n, align) <= n + align,
        forall|m: int| m > n && #[trigger] (m % align) == 0 ==> m >= next_multiple(n, align),
{
    lemma_fundamental_div_mod(n, align);
    lemma_mod_bound(n, align);
    let q = n / align;
    assert(next_multiple(n, align) == (q + 1) * align) by (nonlinear_arith)
        requires
            n == align * q + n % align,
            next_multiple(n, align) == n - n % align + align,
    ;
    lemma_mod_multiples_basic(q + 1, align);
    assert forall|m: int| m > n && #[trigger] (m % align) == 0 implies m >= next_multiple(
        n,
        align,
    ) by {
        lemma_fundamental_div_mod(m, align);
        let k = m / align;
        assert(k > q) by (nonlinear_arith)
            requires
                align > 0,
                align * k > align * q + n % align,
                n % align >= 0,
        ;
        assert(align * k >= (q + 1) * align) by (nonlinear_arith)
            requires
                align > 0,
                k >= q + 1,
        ;
    }
}

/// Rounds `n` up to the next boundary: the least multiple of `align` strictly
/// greater than `n`. It moves forward even where `n` is aligned already, so a
/// scan that advances by it always makes progress.
pub fn round_up_next(n: usize, align: usize) -> (next: usize)
    requires
        align > 0,
        next_multiple(n as int, align as int) <= usize::MAX,
    ensures
        next == next_multiple(n as int, align as int),
        n < next <= n + align,
        next as int % align as int == 0,
        forall|m: int|
            m > n && #[trigger] (m % align as int) == 0 ==> m >= next,
{
    proof {
        lemma_next_multiple(n as int, align as int);
        lemma_mod_bound(n as int, align as int);
        lemma_mod_decreases(n as nat, align as nat);
    }
    n - n % align + align
}

} // verus!
