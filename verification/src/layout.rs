//! How literals and matches are laid out in a Plain LZ77 stream, told from the
//! writer's side: where each token stands, and what stands there.
//!
//! Tokens come in groups of 32, each behind a 32-bit flag word. A match of length
//! 10 or more is extended. The extended matches of a stream are numbered from
//! zero, across all groups: numbers `2k` and `2k + 1` share one length byte, which
//! stands behind the match word of number `2k`.

use vstd::arithmetic::power2::pow2;
use vstd::prelude::*;

verus! {

/// A token as a writer sees it.
pub enum Token {
    /// A byte that stands for itself.
    Literal(u8),
    /// `length` bytes that repeat what stands `distance` bytes before. Lengths
    /// from 25 on are written in one more byte, or, if `wide`, in a byte of 255
    /// and a 16-bit word.
    Match { distance: int, length: int, wide: bool },
}

/// Whether a token is an extended match.
pub open spec fn is_extended(token: Token) -> bool {
    token matches Token::Match { length, .. } && length >= 10
}

/// How many extended matches there are: the number of the next one.
pub open spec fn count_extended(tokens: Seq<Token>) -> int
    decreases tokens.len(),
{
    if tokens.len() == 0 {
        0
    } else if is_extended(tokens.last()) {
        count_extended(tokens.drop_last()) + 1
    } else {
        count_extended(tokens.drop_last())
    }
}

/// How many bytes `token` takes up behind `before`, flag words left aside.
pub open spec fn token_size(before: Seq<Token>, token: Token) -> int {
    match token {
        Token::Literal(_) => 1,
        Token::Match { distance: _, length, wide } => {
            let opened: int = if length >= 10 && count_extended(before) % 2 == 0 {
                1
            } else {
                0
            };
            let more: int = if length < 25 {
                0
            } else if wide {
                3
            } else {
                1
            };
            2 + opened + more
        },
    }
}

/// How many bytes `tokens` take up. Every 32 tokens bring a flag word.
pub open spec fn stream_size(tokens: Seq<Token>) -> int
    decreases tokens.len(),
{
    if tokens.len() == 0 {
        0
    } else {
        let before = tokens.drop_last();
        let flag_word: int = if before.len() % 32 == 0 {
            4
        } else {
            0
        };
        stream_size(before) + flag_word + token_size(before, tokens.last())
    }
}

/// Where the token behind `before` stands: every 32 tokens, behind a fresh flag
/// word.
pub open spec fn token_place(before: Seq<Token>) -> int {
    if before.len() % 32 == 0 {
        stream_size(before) + 4
    } else {
        stream_size(before)
    }
}

/// Where the flag word of the token behind `before` stands.
pub open spec fn flags_place(before: Seq<Token>) -> int {
    stream_size(before.take(before.len() - before.len() % 32))
}

/// Where the length byte stands that the last extended match reaches for.
pub open spec fn length_byte_place(tokens: Seq<Token>) -> int
    decreases tokens.len(),
{
    if tokens.len() == 0 {
        0
    } else if is_extended(tokens.last()) {
        token_place(tokens.drop_last()) + 2
    } else {
        length_byte_place(tokens.drop_last())
    }
}

/// The 16-bit number at `at`, least significant byte first.
pub open spec fn word_at(input: Seq<u8>, at: int) -> int {
    input[at] + 256 * input[at + 1]
}

/// Whether the flag word at `at` calls token `k` of its group a match. The most
/// significant bit belongs to token 0.
pub open spec fn flagged(input: Seq<u8>, at: int, k: int) -> bool {
    let word = input[at] + 256 * input[at + 1] + 65536 * input[at + 2] + 16777216 * input[at + 3];
    word / pow2((31 - k) as nat) as int % 2 == 1
}

/// Whether the flag of the token behind `before` calls it a match.
pub open spec fn match_follows(input: Seq<u8>, before: Seq<Token>) -> bool {
    flagged(input, flags_place(before), (before.len() % 32) as int)
}

/// The half byte that an extended match behind `before` starts its length with:
/// the lower half of a byte of its own, or the upper half of the one that the
/// extended match before it brought.
pub open spec fn half_byte(input: Seq<u8>, before: Seq<Token>) -> int {
    if count_extended(before) % 2 == 0 {
        input[token_place(before) + 2] as int % 16
    } else {
        input[length_byte_place(before)] as int / 16
    }
}

/// Where the length bytes behind the half byte of a match behind `before` stand.
pub open spec fn more_place(before: Seq<Token>) -> int {
    if count_extended(before) % 2 == 0 {
        token_place(before) + 3
    } else {
        token_place(before) + 2
    }
}

/// Whether `token` stands behind `before` in `input`.
pub open spec fn holds(input: Seq<u8>, before: Seq<Token>, token: Token) -> bool {
    let place = token_place(before);
    &&& place + token_size(before, token) <= input.len()
    &&& match_follows(input, before) == (token is Match)
    &&& match token {
        Token::Literal(byte) => input[place] == byte,
        Token::Match { distance, length, wide } => {
            &&& word_at(input, place) == 8 * (distance - 1) + if length < 10 {
                length - 3
            } else {
                7
            }
            &&& length >= 10 ==> half_byte(input, before) == if length < 25 {
                length - 10
            } else {
                15
            }
            &&& length >= 25 && !wide ==> input[more_place(before)] == length - 25
            &&& length >= 25 && wide ==> {
                &&& input[more_place(before)] == 255
                &&& word_at(input, more_place(before) + 1) == length - 3
            }
        },
    }
}

/// Whether `input` starts with `tokens`. What stands behind them is left open, and
/// so are the flags of later tokens.
pub open spec fn starts_with_tokens(input: Seq<u8>, tokens: Seq<Token>) -> bool
    decreases tokens.len(),
{
    tokens.len() > 0 ==> {
        &&& starts_with_tokens(input, tokens.drop_last())
        &&& holds(input, tokens.drop_last(), tokens.last())
    }
}

/// `out` and `n` bytes more, each a copy of the byte `distance` before it.
pub open spec fn copy_on(out: Seq<u8>, distance: int, n: int) -> Seq<u8>
    decreases n,
{
    if n <= 0 {
        out
    } else {
        let shorter = copy_on(out, distance, n - 1);
        shorter.push(shorter[shorter.len() - distance])
    }
}

/// The bytes that `tokens` stand for.
pub open spec fn expand(tokens: Seq<Token>) -> Seq<u8>
    decreases tokens.len(),
{
    if tokens.len() == 0 {
        Seq::empty()
    } else {
        match tokens.last() {
            Token::Literal(byte) => expand(tokens.drop_last()).push(byte),
            Token::Match { distance, length, wide: _ } => copy_on(
                expand(tokens.drop_last()),
                distance,
                length,
            ),
        }
    }
}

/// Whether `token` makes sense where `produced` bytes stand before it: a match
/// reaches back to one of them, and its length can be written in its form.
pub open spec fn makes_sense(produced: int, token: Token) -> bool {
    match token {
        Token::Literal(_) => true,
        Token::Match { distance, length, wide } => {
            &&& 1 <= distance <= produced
            &&& distance <= 8192
            &&& 3 <= length <= 65538
            &&& wide ==> length >= 25
            &&& !wide ==> length < 280
        },
    }
}

/// Whether every one of `tokens` makes sense.
pub open spec fn make_sense(tokens: Seq<Token>) -> bool
    decreases tokens.len(),
{
    tokens.len() > 0 ==> {
        &&& make_sense(tokens.drop_last())
        &&& makes_sense(expand(tokens.drop_last()).len() as int, tokens.last())
    }
}

/// Whether `tokens` are all that `input` says before it ends or stops making
/// sense.
pub open spec fn says_no_more_than(input: Seq<u8>, tokens: Seq<Token>) -> bool {
    &&& starts_with_tokens(input, tokens)
    &&& make_sense(tokens)
    &&& forall|token: Token|
        !(#[trigger] holds(input, tokens, token) && makes_sense(
            expand(tokens).len() as int,
            token,
        ))
}

/// How far a reader gets that has read `before` and then meets the end of the
/// stream, or a token that makes no sense: past every field that is there whole,
/// up to the one that is not, or that gives the nonsense away.
pub open spec fn reads_up_to(input: Seq<u8>, before: Seq<Token>) -> int {
    let place = token_place(before);
    let more = more_place(before);
    if place > input.len() {
        stream_size(before)
    } else if !match_follows(input, before) || place + 2 > input.len() {
        place
    } else if word_at(input, place) % 8 != 7 || more > input.len() {
        place + 2
    } else if half_byte(input, before) != 15 || more + 1 > input.len() {
        more
    } else if input[more] != 255 || more + 3 > input.len() {
        more + 1
    } else {
        more + 3
    }
}

} // verus!
