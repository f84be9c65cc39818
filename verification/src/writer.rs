//! A writer of Plain LZ77 streams, as mathematics, and the round trip: what it
//! writes decodes to what the tokens stand for.

use vstd::arithmetic::div_mod::lemma_div_denominator;
use vstd::arithmetic::power2::{lemma2_to64, lemma_pow2_pos, lemma_pow2_unfold, pow2};
use vstd::prelude::*;

use crate::format::decode;
use crate::layout::{
    count_extended, expand, flagged, flags_place, half_byte, holds, is_extended,
    length_byte_place, make_sense, makes_sense, match_follows, more_place, says_no_more_than,
    starts_with_tokens, stream_size, token_place, token_size, Token,
};
use crate::layout_laws::{
    lemma_decodes_to_its_tokens, lemma_expand_grows, lemma_nothing_wanted,
    lemma_stops_behind_its_tokens,
};

verus! {

/// `n` as two bytes, least significant first.
pub open spec fn two_bytes(n: int) -> Seq<u8> {
    seq![(n % 256) as u8, (n / 256 % 256) as u8]
}

/// The first `k` flags of the group that starts at token `first`, as a binary
/// number: a one for each match, a zero for each literal and behind the end.
pub open spec fn flags_as_number(tokens: Seq<Token>, first: int, k: int) -> int
    decreases k,
{
    if k <= 0 {
        0
    } else {
        let at = first + k - 1;
        let flag: int = if at < tokens.len() && tokens[at] is Match {
            1
        } else {
            0
        };
        2 * flags_as_number(tokens, first, k - 1) + flag
    }
}

/// The flag word of the group that starts at token `first`.
pub open spec fn flag_word(tokens: Seq<Token>, first: int) -> Seq<u8> {
    let word = flags_as_number(tokens, first, 32);
    two_bytes(word % 65536) + two_bytes(word / 65536)
}

/// The half byte that an extended match starts its length with.
pub open spec fn half_of(token: Token) -> int {
    match token {
        Token::Match { length, .. } if length < 25 => length - 10,
        _ => 15,
    }
}

/// The half byte of the first extended match from token `i` on; zero if there is
/// none.
pub open spec fn next_half(tokens: Seq<Token>, i: int) -> int
    decreases tokens.len() - i,
{
    if i >= tokens.len() {
        0
    } else if is_extended(tokens[i]) {
        half_of(tokens[i])
    } else {
        next_half(tokens, i + 1)
    }
}

/// What is written for token `i`. The extended matches with even numbers bring a
/// length byte, for themselves and the next extended match.
pub open spec fn token_bytes(tokens: Seq<Token>, i: int) -> Seq<u8> {
    match tokens[i] {
        Token::Literal(byte) => seq![byte],
        Token::Match { distance, length, wide } => {
            let low: int = if length < 10 {
                length - 3
            } else {
                7
            };
            let opened = if length >= 10 && count_extended(tokens.take(i)) % 2 == 0 {
                seq![(half_of(tokens[i]) + 16 * next_half(tokens, i + 1)) as u8]
            } else {
                Seq::empty()
            };
            let more = if length < 25 {
                Seq::empty()
            } else if wide {
                seq![255u8] + two_bytes(length - 3)
            } else {
                seq![(length - 25) as u8]
            };
            two_bytes(8 * (distance - 1) + low) + opened + more
        },
    }
}

/// What is written from token `i` on: every 32 tokens a flag word, and then the
/// token.
pub open spec fn bytes_from(tokens: Seq<Token>, i: int) -> Seq<u8>
    decreases tokens.len() - i,
{
    if i >= tokens.len() {
        Seq::empty()
    } else {
        let flags = if i % 32 == 0 {
            flag_word(tokens, i)
        } else {
            Seq::empty()
        };
        flags + token_bytes(tokens, i) + bytes_from(tokens, i + 1)
    }
}

/// The stream that says `tokens`.
pub open spec fn encode(tokens: Seq<Token>) -> Seq<u8> {
    bytes_from(tokens, 0)
}

/// The first `m` flags are what is left when the rest is shifted out.
proof fn lemma_flags_shifted(tokens: Seq<Token>, first: int, k: int, m: int)
    requires
        0 <= m <= k,
    ensures
        flags_as_number(tokens, first, k) / pow2((k - m) as nat) as int == flags_as_number(
            tokens,
            first,
            m,
        ),
        0 <= flags_as_number(tokens, first, k) < pow2(k as nat),
    decreases k,
{
    let number = flags_as_number(tokens, first, k);
    lemma2_to64();
    if k == 0 {
    } else {
        let shorter = flags_as_number(tokens, first, k - 1);
        lemma_pow2_unfold(k as nat);
        if m == k {
            lemma_flags_shifted(tokens, first, k - 1, k - 1);
        } else {
            lemma_flags_shifted(tokens, first, k - 1, m);
            let rest = pow2((k - 1 - m) as nat) as int;
            lemma_pow2_unfold((k - m) as nat);
            lemma_pow2_pos((k - 1 - m) as nat);
            lemma_div_denominator(number, 2, rest);
            assert(number / 2 == shorter);
            assert(pow2((k - m) as nat) == 2 * rest);
        }
    }
}

/// A flag word says of each token of its group whether it is a match.
proof fn lemma_flag_word(tokens: Seq<Token>, first: int, k: int, input: Seq<u8>, at: int)
    requires
        0 <= first,
        0 <= k < 32,
        first + k < tokens.len(),
        0 <= at,
        at + 4 <= input.len(),
        input.subrange(at, at + 4) == flag_word(tokens, first),
    ensures
        flagged(input, at, k) == (tokens[first + k] is Match),
{
    let word = flags_as_number(tokens, first, 32);
    lemma_flags_shifted(tokens, first, 32, k + 1);
    lemma2_to64();
    let part = input.subrange(at, at + 4);
    assert(part[0] == input[at] && part[1] == input[at + 1] && part[2] == input[at + 2] && part[3]
        == input[at + 3]);
    assert(part[0] as int == word % 65536 % 256);
    assert(part[1] as int == word % 65536 / 256 % 256);
    assert(part[2] as int == word / 65536 % 256);
    assert(part[3] as int == word / 65536 / 256 % 256);
    assert(input[at] + 256 * input[at + 1] + 65536 * input[at + 2] + 16777216 * input[at + 3]
        == word);
    assert((32 - (k + 1)) as nat == (31 - k) as nat);
}

/// The extended match that brings the length byte which the next one shares.
proof fn lemma_bringer(tokens: Seq<Token>, i: int) -> (j: int)
    requires
        0 <= i <= tokens.len(),
        count_extended(tokens.take(i)) % 2 != 0,
    ensures
        0 <= j < i,
        is_extended(tokens[j]),
        count_extended(tokens.take(i)) == count_extended(tokens.take(j)) + 1,
        length_byte_place(tokens.take(i)) == token_place(tokens.take(j)) + 2,
        next_half(tokens, j + 1) == next_half(tokens, i),
    decreases i,
{
    if i == 0 {
        assert(tokens.take(0) =~= Seq::empty());
        0
    } else {
        assert(tokens.take(i).drop_last() =~= tokens.take(i - 1));
        assert(tokens.take(i).last() == tokens[i - 1]);
        if is_extended(tokens[i - 1]) {
            i - 1
        } else {
            lemma_bringer(tokens, i - 1)
        }
    }
}

/// A token's bytes are as many as the layout says.
proof fn lemma_token_bytes_len(tokens: Seq<Token>, i: int)
    requires
        0 <= i < tokens.len(),
    ensures
        token_bytes(tokens, i).len() == token_size(tokens.take(i), tokens[i]),
{
}

/// Each token's bytes stand where the layout says.
proof fn lemma_written_at(tokens: Seq<Token>, i: int)
    requires
        0 <= i <= tokens.len(),
    ensures
        0 <= stream_size(tokens.take(i)) <= encode(tokens).len(),
        encode(tokens).skip(stream_size(tokens.take(i))) == bytes_from(tokens, i),
    decreases i,
{
    let all = encode(tokens);
    if i == 0 {
        assert(tokens.take(0) =~= Seq::empty());
        assert(all.skip(0) =~= all);
    } else {
        lemma_written_at(tokens, i - 1);
        lemma_token_bytes_len(tokens, i - 1);
        assert(tokens.take(i).drop_last() =~= tokens.take(i - 1));
        assert(tokens.take(i).last() == tokens[i - 1]);
        let from = stream_size(tokens.take(i - 1));
        let to = stream_size(tokens.take(i));
        assert(all.skip(to) =~= all.skip(from).skip(to - from));
        assert(all.skip(from).skip(to - from) =~= bytes_from(tokens, i));
    }
}

/// The bytes of token `i`, and the flag word before it if it opens a group.
proof fn lemma_written_token(tokens: Seq<Token>, i: int)
    requires
        0 <= i < tokens.len(),
    ensures
        ({
            let all = encode(tokens);
            let place = token_place(tokens.take(i));
            let size = token_size(tokens.take(i), tokens[i]);
            &&& 0 <= place
            &&& place + size <= all.len()
            &&& all.subrange(place, place + size) == token_bytes(tokens, i)
            &&& i % 32 == 0 ==> all.subrange(place - 4, place) == flag_word(tokens, i)
        }),
{
    let all = encode(tokens);
    lemma_written_at(tokens, i);
    lemma_token_bytes_len(tokens, i);
    let from = stream_size(tokens.take(i));
    let place = token_place(tokens.take(i));
    let size = token_size(tokens.take(i), tokens[i]);
    let rest = bytes_from(tokens, i);
    assert(tokens.take(i).len() == i);
    assert(all.subrange(place, place + size) =~= rest.subrange(place - from, place - from + size));
    assert(rest.subrange(place - from, place - from + size) =~= token_bytes(tokens, i));
    if i % 32 == 0 {
        assert(all.subrange(place - 4, place) =~= rest.subrange(0, 4));
        assert(rest.subrange(0, 4) =~= flag_word(tokens, i));
    }
}

/// The flag of token `i` says what it is.
proof fn lemma_written_flag(tokens: Seq<Token>, i: int)
    requires
        0 <= i < tokens.len(),
    ensures
        match_follows(encode(tokens), tokens.take(i)) == (tokens[i] is Match),
{
    let first = i - i % 32;
    lemma_written_at(tokens, first);
    lemma_written_token(tokens, first);
    assert(tokens.take(i).take(first) =~= tokens.take(first));
    assert(tokens.take(i).len() == i && tokens.take(first).len() == first);
    assert(flags_place(tokens.take(i)) == token_place(tokens.take(first)) - 4);
    lemma_flag_word(tokens, first, i % 32, encode(tokens), flags_place(tokens.take(i)));
}

/// The half byte of an extended match stands where it is looked for.
proof fn lemma_written_half(tokens: Seq<Token>, i: int)
    requires
        0 <= i < tokens.len(),
        is_extended(tokens[i]),
        forall|m: int| 0 <= m < tokens.len() ==> half_fits(#[trigger] tokens[m]),
    ensures
        half_byte(encode(tokens), tokens.take(i)) == half_of(tokens[i]),
{
    let all = encode(tokens);
    let j = if count_extended(tokens.take(i)) % 2 == 0 {
        i
    } else {
        lemma_bringer(tokens, i)
    };
    lemma_written_token(tokens, j);
    lemma_next_half_fits(tokens, j + 1);
    let place = token_place(tokens.take(j));
    let size = token_size(tokens.take(j), tokens[j]);
    assert(all.subrange(place, place + size)[2] == all[place + 2]);
    assert(half_fits(tokens[j]));
    assert(all[place + 2] == half_of(tokens[j]) + 16 * next_half(tokens, j + 1));
}

/// Whether an extended match's half byte is one.
spec fn half_fits(token: Token) -> bool {
    is_extended(token) ==> 0 <= half_of(token) <= 15
}

/// What is written into the upper half of a length byte fits.
proof fn lemma_next_half_fits(tokens: Seq<Token>, i: int)
    requires
        0 <= i,
        forall|m: int| 0 <= m < tokens.len() ==> half_fits(#[trigger] tokens[m]),
    ensures
        0 <= next_half(tokens, i) <= 15,
    decreases tokens.len() - i,
{
    if i < tokens.len() {
        assert(half_fits(tokens[i]));
        lemma_next_half_fits(tokens, i + 1);
    }
}

/// Token `i` stands in what is written.
proof fn lemma_written_holds(tokens: Seq<Token>, i: int)
    requires
        0 <= i < tokens.len(),
        makes_sense(expand(tokens.take(i)).len() as int, tokens[i]),
        forall|m: int| 0 <= m < tokens.len() ==> half_fits(#[trigger] tokens[m]),
    ensures
        holds(encode(tokens), tokens.take(i), tokens[i]),
{
    let all = encode(tokens);
    let before = tokens.take(i);
    let place = token_place(before);
    let size = token_size(before, tokens[i]);
    lemma_written_token(tokens, i);
    lemma_written_flag(tokens, i);
    let here = token_bytes(tokens, i);
    assert(forall|m: int| 0 <= m < size ==> #[trigger] here[m] == all[place + m]);
    match tokens[i] {
        Token::Literal(byte) => {
            assert(here[0] == all[place]);
        },
        Token::Match { distance, length, wide } => {
            assert(here[0] == all[place] && here[1] == all[place + 1]);
            if length >= 10 {
                lemma_written_half(tokens, i);
            }
            if length >= 25 {
                let at = more_place(before) - place;
                assert(here[at] == all[place + at]);
                if wide {
                    assert(here[at + 1] == all[place + at + 1] && here[at + 2] == all[place + at
                        + 2]);
                }
            }
        },
    }
}

/// Tokens that make sense do so one by one.
proof fn lemma_each_makes_sense(tokens: Seq<Token>, i: int)
    requires
        make_sense(tokens),
        0 <= i < tokens.len(),
    ensures
        makes_sense(expand(tokens.take(i)).len() as int, tokens[i]),
        half_fits(tokens[i]),
    decreases tokens.len(),
{
    if i == tokens.len() - 1 {
        assert(tokens.take(i) =~= tokens.drop_last());
    } else {
        lemma_each_makes_sense(tokens.drop_last(), i);
        assert(tokens.take(i) =~= tokens.drop_last().take(i));
    }
}

/// What is written starts with the tokens.
proof fn lemma_written_starts(tokens: Seq<Token>, n: int)
    requires
        make_sense(tokens),
        0 <= n <= tokens.len(),
    ensures
        starts_with_tokens(encode(tokens), tokens.take(n)),
    decreases n,
{
    if n > 0 {
        lemma_written_starts(tokens, n - 1);
        assert(tokens.take(n).drop_last() =~= tokens.take(n - 1));
        assert(tokens.take(n).last() == tokens[n - 1]);
        assert forall|m: int| 0 <= m < tokens.len() implies half_fits(#[trigger] tokens[m]) by {
            lemma_each_makes_sense(tokens, m);
        }
        lemma_each_makes_sense(tokens, n - 1);
        lemma_written_holds(tokens, n - 1);
    }
}

/// The round trip: any tokens that make sense, written and decoded again, come
/// out as what they stand for, and the stream is consumed whole. That holds for
/// any mix of literals and matches, over however many groups.
pub proof fn lemma_round_trip(tokens: Seq<Token>, limit: int)
    requires
        make_sense(tokens),
        expand(tokens).len() <= limit,
    ensures
        decode(encode(tokens), limit).data == expand(tokens),
        decode(encode(tokens), limit).consumed == encode(tokens).len(),
{
    let all = encode(tokens);
    let n = tokens.len() as int;
    assert(tokens.take(n) =~= tokens);
    lemma_written_starts(tokens, n);
    lemma_written_at(tokens, n);
    assert(all.skip(stream_size(tokens)).len() == 0);
    assert(all.len() == stream_size(tokens));
    if expand(tokens).len() < limit {
        assert(says_no_more_than(all, tokens));
        lemma_stops_behind_its_tokens(all, tokens, limit);
    } else if n > 0 {
        lemma_expand_grows(tokens);
        lemma_decodes_to_its_tokens(all, tokens, limit);
        assert(expand(tokens).take(limit) =~= expand(tokens));
    } else {
        lemma_nothing_wanted(all);
        assert(expand(tokens) =~= Seq::empty());
    }
}

} // verus!
