//! Decoding undoes the layout: a decode yields what the tokens of its stream
//! stand for.

use vstd::arithmetic::power2::pow2;
use vstd::bits::lemma_u32_shr_is_div;
use vstd::prelude::*;

use crate::format::{
    decode, decode_from, flag_set, le32, min, read_match, repeat_tail, start_of_stream, step,
    Cursor, Step,
};
use crate::format_laws::lemma_match_repeats;
use crate::layout::{
    copy_on, count_extended, expand, flagged, flags_place, holds, length_byte_place, make_sense,
    makes_sense, match_follows, more_place, reads_up_to, says_no_more_than, starts_with_tokens,
    stream_size, token_place, Token,
};

verus! {

/// The length byte that is half used behind `tokens`.
spec fn half_used(tokens: Seq<Token>) -> Option<int> {
    if count_extended(tokens) % 2 == 0 {
        None
    } else {
        Some(length_byte_place(tokens))
    }
}

/// The flag word that a decoder has in force behind `tokens`.
spec fn flags_behind(input: Seq<u8>, tokens: Seq<Token>) -> u32
    decreases tokens.len(),
{
    if tokens.len() == 0 {
        0
    } else if tokens.drop_last().len() % 32 == 0 {
        le32(input, stream_size(tokens.drop_last())) as u32
    } else {
        flags_behind(input, tokens.drop_last())
    }
}

/// Where a decoder stands behind `tokens`.
spec fn cursor_behind(input: Seq<u8>, tokens: Seq<Token>) -> Cursor {
    Cursor {
        pos: stream_size(tokens),
        flags: flags_behind(input, tokens),
        bits: if tokens.len() % 32 == 0 {
            0
        } else {
            32 - tokens.len() % 32
        },
        shared: half_used(tokens),
    }
}

/// Where a decoder stands behind `tokens` once it has a flag for the next one.
spec fn cursor_flagged(input: Seq<u8>, tokens: Seq<Token>) -> Cursor {
    if tokens.len() % 32 == 0 {
        Cursor {
            pos: token_place(tokens),
            flags: le32(input, stream_size(tokens)) as u32,
            bits: 32,
            shared: half_used(tokens),
        }
    } else {
        cursor_behind(input, tokens)
    }
}

/// Inside a group, the flag word in force is the group's.
proof fn lemma_flags_behind(input: Seq<u8>, tokens: Seq<Token>)
    requires
        tokens.len() % 32 != 0,
    ensures
        flags_behind(input, tokens) == le32(input, flags_place(tokens)) as u32,
    decreases tokens.len(),
{
    let before = tokens.drop_last();
    let first = tokens.len() - tokens.len() % 32;
    if before.len() % 32 == 0 {
        assert(tokens.take(first) =~= before);
    } else {
        lemma_flags_behind(input, before);
        assert(tokens.take(first) =~= before.take(first));
    }
}

/// A bit of a flag word, by arithmetic.
proof fn lemma_flag_bit(input: Seq<u8>, at: int, k: int)
    requires
        0 <= k < 32,
    ensures
        flag_set(le32(input, at) as u32, 31 - k) == flagged(input, at, k),
{
    let word = le32(input, at) as u32;
    let bit = (31 - k) as u32;
    assert((word & (1u32 << bit) != 0) == ((word >> bit) % 2 == 1)) by (bit_vector)
        requires
            bit < 32,
    ;
    lemma_u32_shr_is_div(word, bit);
}

/// The flag that a decoder goes by is that of the next token.
proof fn lemma_next_flag(input: Seq<u8>, tokens: Seq<Token>)
    ensures
        ({
            let cur = cursor_flagged(input, tokens);
            &&& cur.pos == token_place(tokens)
            &&& cur.shared == half_used(tokens)
            &&& cur.bits == 32 - tokens.len() % 32
            &&& flag_set(cur.flags, cur.bits - 1) == match_follows(input, tokens)
        }),
{
    lemma_flag_bit(input, flags_place(tokens), (tokens.len() % 32) as int);
    if tokens.len() % 32 == 0 {
        assert(tokens.take(tokens.len() as int) =~= tokens);
    } else {
        lemma_flags_behind(input, tokens);
    }
}

/// Copying byte by byte is repeating the tail.
proof fn lemma_copy_on(out: Seq<u8>, distance: int, n: int)
    requires
        1 <= distance <= out.len(),
        0 <= n,
    ensures
        copy_on(out, distance, n) == repeat_tail(out, distance, n),
    decreases n,
{
    if n == 0 {
        assert(repeat_tail(out, distance, 0) =~= out);
    } else {
        lemma_copy_on(out, distance, n - 1);
        lemma_match_repeats(out, distance, n, out.len() + n - 1);
        let shorter = repeat_tail(out, distance, n - 1);
        let longer = repeat_tail(out, distance, n);
        assert(longer =~= shorter.push(longer[out.len() + n - 1]));
        assert(longer[out.len() + n - 1 - distance] == shorter[out.len() + n - 1 - distance]);
    }
}

/// Every token adds bytes.
pub proof fn lemma_expand_grows(tokens: Seq<Token>)
    requires
        make_sense(tokens),
        tokens.len() > 0,
    ensures
        expand(tokens.drop_last()).len() < expand(tokens).len(),
{
    if let Token::Match { distance, length, .. } = tokens.last() {
        lemma_copy_on(expand(tokens.drop_last()), distance, length);
    }
}

/// A match token that stands in a stream is read as what it is.
proof fn lemma_read_token(input: Seq<u8>, before: Seq<Token>, token: Token)
    requires
        holds(input, before, token),
        token is Match,
        makes_sense(expand(before).len() as int, token),
    ensures
        ({
            let read = read_match(input, token_place(before), half_used(before));
            &&& read.distance == token->distance
            &&& read.field.length == Some(token->length)
            &&& read.field.next == stream_size(before.push(token))
            &&& read.field.shared == half_used(before.push(token))
        }),
{
    let after = before.push(token);
    assert(after.drop_last() =~= before);
    assert(after.last() == token);
}

/// From behind `before`, a decoder steps to behind the token that follows, or as
/// far into it as the limit allows.
proof fn lemma_token_step(input: Seq<u8>, limit: int, before: Seq<Token>, token: Token)
    requires
        holds(input, before, token),
        makes_sense(expand(before).len() as int, token),
        expand(before).len() < limit,
    ensures
        ({
            let after = before.push(token);
            let wanted = min(limit, expand(after).len() as int);
            &&& expand(before).len() < expand(after).len()
            &&& decode_from(input, limit, cursor_behind(input, before), expand(before))
                == decode_from(
                input,
                limit,
                cursor_behind(input, after),
                expand(after).take(wanted),
            )
        }),
{
    let after = before.push(token);
    let out = expand(before);
    let wanted = min(limit, expand(after).len() as int);
    assert(after.drop_last() =~= before);
    assert(after.last() == token);
    lemma_next_flag(input, before);
    let cur = cursor_behind(input, before);
    let ready = cursor_flagged(input, before);
    if before.len() % 32 == 0 {
        assert(step(input, limit, cur, out) == Step::Go(ready, out));
    }
    assert(decode_from(input, limit, cur, out) == decode_from(input, limit, ready, out));
    match token {
        Token::Literal(byte) => {
            assert(expand(after) == out.push(byte));
            assert(expand(after).take(wanted) =~= out.push(byte));
            assert(step(input, limit, ready, out) == Step::Go(
                cursor_behind(input, after),
                out.push(byte),
            ));
        },
        Token::Match { distance, length, wide: _ } => {
            lemma_read_token(input, before, token);
            lemma_copy_on(out, distance, length);
            let n = min(length, limit - out.len());
            assert(expand(after) == repeat_tail(out, distance, length));
            assert(expand(after).take(wanted) =~= repeat_tail(out, distance, n));
            assert(step(input, limit, ready, out) == Step::Go(
                cursor_behind(input, after),
                repeat_tail(out, distance, n),
            ));
        },
    }
}

/// A decoder gets through the tokens that its stream starts with.
proof fn lemma_through_tokens(input: Seq<u8>, limit: int, tokens: Seq<Token>)
    requires
        starts_with_tokens(input, tokens),
        make_sense(tokens),
        tokens.len() > 0 ==> expand(tokens.drop_last()).len() < limit,
    ensures
        decode(input, limit) == decode_from(
            input,
            limit,
            cursor_behind(input, tokens),
            expand(tokens).take(min(limit, expand(tokens).len() as int)),
        ) || (tokens.len() == 0 && limit < 0),
        0 <= stream_size(tokens) <= input.len(),
    decreases tokens.len(),
{
    if tokens.len() == 0 {
        if limit >= 0 {
            assert(expand(tokens).take(0) =~= Seq::empty());
            assert(cursor_behind(input, tokens) == start_of_stream());
        }
    } else {
        let before = tokens.drop_last();
        assert(before.push(tokens.last()) =~= tokens);
        assert(starts_with_tokens(input, before) && make_sense(before));
        if before.len() > 0 {
            lemma_expand_grows(before);
        }
        lemma_through_tokens(input, limit, before);
        assert(expand(before).take(expand(before).len() as int) =~= expand(before));
        lemma_token_step(input, limit, before, tokens.last());
    }
}

/// The round trip, up to any limit: a stream that starts with some tokens, the
/// last of which brings the output up to the limit, decodes to the first `limit`
/// bytes that the tokens stand for, and is consumed up to the end of the last
/// token. Whatever stands behind them has no part in it.
pub proof fn lemma_decodes_to_its_tokens(input: Seq<u8>, tokens: Seq<Token>, limit: int)
    requires
        starts_with_tokens(input, tokens),
        make_sense(tokens),
        tokens.len() > 0,
        expand(tokens.drop_last()).len() < limit <= expand(tokens).len(),
    ensures
        decode(input, limit).data == expand(tokens).take(limit),
        decode(input, limit).consumed == stream_size(tokens),
{
    lemma_through_tokens(input, limit, tokens);
}

/// Where no bytes are wanted, none are produced and none consumed.
pub proof fn lemma_nothing_wanted(input: Seq<u8>)
    ensures
        decode(input, 0).data == Seq::<u8>::empty(),
        decode(input, 0).consumed == 0,
{
}

/// The match token that a decoder makes out behind `before`.
spec fn made_out(input: Seq<u8>, before: Seq<Token>) -> Token {
    let read = read_match(input, token_place(before), half_used(before));
    let length = read.field.length->0;
    Token::Match {
        distance: read.distance,
        length,
        wide: length >= 25 && input[more_place(before)] == 255,
    }
}

/// What a decoder makes out stands there.
proof fn lemma_made_out(input: Seq<u8>, before: Seq<Token>)
    requires
        match_follows(input, before),
        read_match(input, token_place(before), half_used(before)).field.length is Some,
    ensures
        holds(input, before, made_out(input, before)),
        makes_sense(
            read_match(input, token_place(before), half_used(before)).distance,
            made_out(input, before),
        ),
{
}

/// A failed read ends where the layout says.
proof fn lemma_read_ends(input: Seq<u8>, before: Seq<Token>)
    requires
        match_follows(input, before),
        token_place(before) <= input.len(),
    ensures
        read_match(input, token_place(before), half_used(before)).field.next == reads_up_to(
            input,
            before,
        ),
{
}

/// A stream that says no more than some tokens decodes to what they stand for,
/// if more bytes than those are wanted. As much of it is consumed as could be
/// read.
pub proof fn lemma_stops_behind_its_tokens(input: Seq<u8>, tokens: Seq<Token>, limit: int)
    requires
        says_no_more_than(input, tokens),
        expand(tokens).len() < limit,
    ensures
        decode(input, limit).data == expand(tokens),
        decode(input, limit).consumed == reads_up_to(input, tokens),
{
    if tokens.len() > 0 {
        lemma_expand_grows(tokens);
    }
    lemma_through_tokens(input, limit, tokens);
    let out = expand(tokens);
    assert(out.take(out.len() as int) =~= out);
    lemma_next_flag(input, tokens);
    let cur = cursor_behind(input, tokens);
    let ready = cursor_flagged(input, tokens);
    let place = token_place(tokens);
    if place > input.len() {
        assert(tokens.len() % 32 == 0);
    } else {
        if tokens.len() % 32 == 0 {
            assert(step(input, limit, cur, out) == Step::Go(ready, out));
        }
        assert(decode_from(input, limit, cur, out) == decode_from(input, limit, ready, out));
        if !match_follows(input, tokens) {
            if place < input.len() {
                assert(holds(input, tokens, Token::Literal(input[place])));
            }
        } else {
            lemma_read_ends(input, tokens);
            let read = read_match(input, place, half_used(tokens));
            if read.field.length is Some {
                lemma_made_out(input, tokens);
                assert(!makes_sense(out.len() as int, made_out(input, tokens)));
            }
        }
    }
}

/// Behind tokens that a stream starts with, it says no more, or goes on.
proof fn lemma_tokens_go_on(input: Seq<u8>, tokens: Seq<Token>) -> (all: Seq<Token>)
    requires
        starts_with_tokens(input, tokens),
        make_sense(tokens),
    ensures
        says_no_more_than(input, all),
    decreases input.len() - stream_size(tokens),
{
    if says_no_more_than(input, tokens) {
        tokens
    } else {
        let token = choose|token: Token| #[trigger]
            holds(input, tokens, token) && makes_sense(expand(tokens).len() as int, token);
        let longer = tokens.push(token);
        assert(longer.drop_last() =~= tokens);
        lemma_tokens_go_on(input, longer)
    }
}

/// Every stream says something, if only nothing: there are tokens that it starts
/// with and says no more than.
pub proof fn lemma_every_stream_says_something(input: Seq<u8>)
    ensures
        exists|tokens: Seq<Token>| says_no_more_than(input, tokens),
{
    let all = lemma_tokens_go_on(input, Seq::empty());
}

} // verus!
