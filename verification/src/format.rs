//! The Plain LZ77 stream format, as mathematics.
//!
//! A stream is a run of groups. A group opens with a little-endian 32-bit flag
//! word, whose bits say, from the most significant down, whether the next token
//! is a literal byte (clear) or a match (set). A match opens with a
//! little-endian 16-bit word: the upper 13 bits hold the distance less one, the
//! lower 3 bits the length less three, where 7 announces further length bytes.

use vstd::prelude::*;

verus! {

/// What a decode yields.
pub struct Output {
    /// The bytes that were produced.
    pub data: Seq<u8>,
    /// How many bytes of the stream were consumed for them.
    pub consumed: int,
}

/// Where a decode stands in its stream.
pub struct Cursor {
    /// The next byte to read.
    pub pos: int,
    /// The flag word in force.
    pub flags: u32,
    /// How many bits of `flags` are still to be used.
    pub bits: int,
    /// The position of a length byte whose upper half is still to be used.
    pub shared: Option<int>,
}

/// The length field of a match, as far as it could be read.
pub struct LengthField {
    /// The first byte that was not read.
    pub next: int,
    /// The length byte left half used, if any.
    pub shared: Option<int>,
    /// The length; `None` if the stream ends inside the field or the field is
    /// malformed.
    pub length: Option<int>,
}

/// A match token, as far as it could be read.
pub struct MatchToken {
    /// How far back the match reaches.
    pub distance: int,
    /// Its length field.
    pub field: LengthField,
}

/// The two bytes at `pos` as a little-endian number.
pub open spec fn le16(input: Seq<u8>, pos: int) -> int {
    input[pos] + 0x100 * input[pos + 1]
}

/// The four bytes at `pos` as a little-endian number.
pub open spec fn le32(input: Seq<u8>, pos: int) -> int {
    le16(input, pos) + 0x1_0000 * le16(input, pos + 2)
}

/// Whether bit `bit` of `flags` is set, counted from the least significant.
pub open spec fn flag_set(flags: u32, bit: int) -> bool {
    flags & (1u32 << (bit as u32)) != 0
}

/// The length bytes that follow a half byte of 15: one byte, or, where that is
/// 255, a 16-bit word behind it, which holds the length less three on its own. A
/// word under 22 encodes a length that the half byte covers, and is malformed.
pub open spec fn read_long_length(input: Seq<u8>, pos: int, shared: Option<int>) -> LengthField {
    if pos >= input.len() {
        LengthField { next: pos, shared, length: None }
    } else if input[pos] < 255 {
        LengthField { next: pos + 1, shared, length: Some(input[pos] + 15 + 7 + 3) }
    } else if pos + 3 > input.len() {
        LengthField { next: pos + 1, shared, length: None }
    } else {
        let word = le16(input, pos + 1);
        LengthField {
            next: pos + 3,
            shared,
            length: if word < 15 + 7 {
                None
            } else {
                Some(word + 3)
            },
        }
    }
}

/// The length bytes that follow a match word whose low bits are 7. The first is
/// a half byte: the lower half of a fresh byte, or the upper half of the byte
/// that an earlier match opened and left half used.
pub open spec fn read_length(input: Seq<u8>, pos: int, shared: Option<int>) -> LengthField {
    match shared {
        None => if pos >= input.len() {
            LengthField { next: pos, shared: None, length: None }
        } else if input[pos] % 16 < 15 {
            LengthField { next: pos + 1, shared: Some(pos), length: Some(input[pos] % 16 + 7 + 3) }
        } else {
            read_long_length(input, pos + 1, Some(pos))
        },
        Some(at) => if input[at] / 16 < 15 {
            LengthField { next: pos, shared: None, length: Some(input[at] / 16 + 7 + 3) }
        } else {
            read_long_length(input, pos, None)
        },
    }
}

/// The match token at `pos`.
pub open spec fn read_match(input: Seq<u8>, pos: int, shared: Option<int>) -> MatchToken {
    if pos + 2 > input.len() {
        MatchToken { distance: 0, field: LengthField { next: pos, shared, length: None } }
    } else {
        let word = le16(input, pos);
        MatchToken {
            distance: word / 8 + 1,
            field: if word % 8 == 7 {
                read_length(input, pos + 2, shared)
            } else {
                LengthField { next: pos + 2, shared, length: Some(word % 8 + 3) }
            },
        }
    }
}

/// `out` followed by `n` bytes of its own last `distance` bytes, repeated as
/// often as it takes.
pub open spec fn repeat_tail(out: Seq<u8>, distance: int, n: int) -> Seq<u8> {
    out + Seq::new(n as nat, |i: int| out[out.len() - distance + i % distance])
}

/// The smaller of two numbers.
pub open spec fn min(a: int, b: int) -> int {
    if a <= b {
        a
    } else {
        b
    }
}

/// What one step of a decode comes to.
pub enum Step {
    /// The decode is at its end, with this many bytes of the stream consumed.
    Stop(int),
    /// The decode goes on from a cursor, with these bytes produced.
    Go(Cursor, Seq<u8>),
}

/// One step of a decode that stands at `cur` and has produced `out`: a flag word
/// is taken up, or a token is decoded.
///
/// The decode stops where the stream ends (be it inside a token), at a malformed
/// length, and at a distance that reaches back before the first byte produced.
pub open spec fn step(input: Seq<u8>, limit: int, cur: Cursor, out: Seq<u8>) -> Step {
    if cur.bits <= 0 {
        if cur.pos + 4 > input.len() {
            Step::Stop(cur.pos)
        } else {
            let flags = le32(input, cur.pos) as u32;
            Step::Go(Cursor { pos: cur.pos + 4, flags, bits: 32, shared: cur.shared }, out)
        }
    } else if !flag_set(cur.flags, cur.bits - 1) {
        if cur.pos >= input.len() {
            Step::Stop(cur.pos)
        } else {
            Step::Go(
                Cursor { pos: cur.pos + 1, bits: cur.bits - 1, ..cur },
                out.push(input[cur.pos]),
            )
        }
    } else {
        let token = read_match(input, cur.pos, cur.shared);
        let field = token.field;
        match field.length {
            Some(length) if token.distance <= out.len() => Step::Go(
                Cursor { pos: field.next, bits: cur.bits - 1, shared: field.shared, ..cur },
                repeat_tail(out, token.distance, min(length, limit - out.len())),
            ),
            _ => Step::Stop(field.next),
        }
    }
}

/// What decoding comes to when it stands at `cur` and has produced `out`: the
/// steps from there, until one stops or `limit` bytes are produced. Whatever was
/// produced until then is the result.
pub open spec fn decode_from(input: Seq<u8>, limit: int, cur: Cursor, out: Seq<u8>) -> Output
    decreases input.len() - cur.pos,
{
    if out.len() >= limit {
        Output { data: out, consumed: cur.pos }
    } else {
        match step(input, limit, cur, out) {
            Step::Stop(consumed) => Output { data: out, consumed },
            Step::Go(next, longer) => decode_from(input, limit, next, longer),
        }
    }
}

/// Where every decode starts.
pub open spec fn start_of_stream() -> Cursor {
    Cursor { pos: 0, flags: 0, bits: 0, shared: None }
}

/// What the stream `input` decodes to, when at most `limit` bytes are wanted.
pub open spec fn decode(input: Seq<u8>, limit: int) -> Output {
    decode_from(input, limit, start_of_stream(), Seq::empty())
}

} // verus!
