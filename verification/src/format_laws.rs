//! What is true of every decode.

use vstd::arithmetic::div_mod::{lemma_mod_sub_multiples_vanish, lemma_small_mod};
use vstd::prelude::*;

use crate::format::{
    decode, decode_from, min, read_match, repeat_tail, start_of_stream, step, Cursor, Output,
    Step,
};

verus! {

/// A cursor that a decode of a stream of `len` bytes can stand at.
spec fn within(cur: Cursor, len: int) -> bool {
    &&& 0 <= cur.pos <= len
    &&& cur.shared matches Some(at) ==> 0 <= at < cur.pos
}

/// In a match, every byte equals the one `distance` before it.
pub proof fn lemma_match_repeats(out: Seq<u8>, distance: int, n: int, i: int)
    requires
        1 <= distance <= out.len(),
        out.len() <= i < out.len() + n,
    ensures
        repeat_tail(out, distance, n).len() == out.len() + n,
        repeat_tail(out, distance, n)[i] == repeat_tail(out, distance, n)[i - distance],
{
    let j = i - out.len();
    if j < distance {
        lemma_small_mod(j as nat, distance as nat);
    } else {
        lemma_mod_sub_multiples_vanish(j, distance);
    }
}

/// A read stays inside the stream, moves forward where it succeeds, and hands
/// on a position it has passed.
proof fn lemma_read_match_bounds(input: Seq<u8>, pos: int, shared: Option<int>)
    requires
        0 <= pos <= input.len(),
        shared matches Some(at) ==> 0 <= at < pos,
    ensures
        ({
            let token = read_match(input, pos, shared);
            &&& pos <= token.field.next <= input.len()
            &&& token.field.length matches Some(length) ==> {
                &&& pos < token.field.next
                &&& length >= 3
                &&& token.distance >= 1
            }
            &&& token.field.shared matches Some(at) ==> 0 <= at < token.field.next
        }),
{
}

/// A read in a stream that was cut off is the same read, where the cut lies
/// behind it, and fails no later, where the cut lies inside it.
proof fn lemma_read_match_cut(input: Seq<u8>, pos: int, shared: Option<int>, cut: int)
    requires
        0 <= pos <= cut <= input.len(),
        shared matches Some(at) ==> 0 <= at < pos,
    ensures
        ({
            let whole = read_match(input, pos, shared);
            let part = read_match(input.take(cut), pos, shared);
            &&& cut >= whole.field.next ==> {
                &&& part.field == whole.field
                &&& part.field.length is Some ==> part == whole
            }
            &&& part == whole || part.field.length is None
            &&& part.field.next <= whole.field.next
        }),
{
}

/// A step stays inside the stream and the limit, moves forward where it goes on,
/// and only adds to what is produced.
proof fn lemma_step_bounds(input: Seq<u8>, limit: int, cur: Cursor, out: Seq<u8>)
    requires
        within(cur, input.len() as int),
        out.len() < limit,
    ensures
        match step(input, limit, cur, out) {
            Step::Stop(consumed) => cur.pos <= consumed <= input.len(),
            Step::Go(next, longer) => {
                &&& within(next, input.len() as int)
                &&& cur.pos < next.pos
                &&& out.len() <= longer.len() <= limit
                &&& out.is_prefix_of(longer)
            },
        },
{
    lemma_read_match_bounds(input, cur.pos, cur.shared);
    if let Step::Go(next, longer) = step(input, limit, cur, out) {
        assert(out =~= longer.take(out.len() as int));
    }
}

/// A decode only ever adds to what is produced, and keeps to the limit and to
/// the stream.
proof fn lemma_decode_from_bounds(input: Seq<u8>, limit: int, cur: Cursor, out: Seq<u8>)
    requires
        within(cur, input.len() as int),
        out.len() <= limit,
    ensures
        ({
            let result = decode_from(input, limit, cur, out);
            &&& result.data.len() <= limit
            &&& out.is_prefix_of(result.data)
            &&& cur.pos <= result.consumed <= input.len()
        }),
    decreases input.len() - cur.pos,
{
    if out.len() < limit {
        lemma_step_bounds(input, limit, cur, out);
        if let Step::Go(next, longer) = step(input, limit, cur, out) {
            lemma_decode_from_bounds(input, limit, next, longer);
            let data = decode_from(input, limit, next, longer).data;
            assert(out =~= data.take(out.len() as int));
        }
    }
}

/// A step in a stream that was cut off is the same step, where the cut lies
/// behind it; a cut inside it stops the decode, and no later.
proof fn lemma_step_cut(input: Seq<u8>, limit: int, cur: Cursor, out: Seq<u8>, cut: int)
    requires
        within(cur, cut),
        cut <= input.len(),
    ensures
        ({
            let whole = step(input, limit, cur, out);
            let part = step(input.take(cut), limit, cur, out);
            let reach = match whole {
                Step::Stop(consumed) => consumed,
                Step::Go(next, _) => next.pos,
            };
            &&& cut >= reach ==> part == whole
            &&& part == whole || (part matches Step::Stop(consumed) && consumed <= reach)
        }),
{
    lemma_read_match_bounds(input, cur.pos, cur.shared);
    lemma_read_match_cut(input, cur.pos, cur.shared, cut);
}

/// Cutting a stream off costs output only at the end: what is decoded from the
/// first `cut` bytes is the beginning of what is decoded from the whole.
proof fn lemma_decode_from_cut(
    input: Seq<u8>,
    limit: int,
    cur: Cursor,
    out: Seq<u8>,
    cut: int,
)
    requires
        within(cur, cut),
        cut <= input.len(),
        out.len() <= limit,
    ensures
        ({
            let whole = decode_from(input, limit, cur, out);
            let part = decode_from(input.take(cut), limit, cur, out);
            &&& part.data.is_prefix_of(whole.data)
            &&& part.consumed <= min(cut, whole.consumed)
            &&& cut >= whole.consumed ==> part == whole
        }),
    decreases input.len() - cur.pos,
{
    lemma_decode_from_bounds(input, limit, cur, out);
    lemma_decode_from_bounds(input.take(cut), limit, cur, out);
    if out.len() < limit {
        lemma_step_cut(input, limit, cur, out, cut);
        lemma_step_bounds(input, limit, cur, out);
        lemma_step_bounds(input.take(cut), limit, cur, out);
        match (step(input, limit, cur, out), step(input.take(cut), limit, cur, out)) {
            (Step::Go(next, longer), Step::Go(_, _)) => {
                lemma_decode_from_cut(input, limit, next, longer, cut);
            },
            (Step::Go(next, longer), Step::Stop(_)) => {
                lemma_decode_from_bounds(input, limit, next, longer);
            },
            _ => {},
        }
    }
}

/// Truncation is tolerated: what is decoded from the first `cut` bytes of a
/// stream is the beginning of what is decoded from all of it.
pub proof fn lemma_truncated_stream(input: Seq<u8>, limit: int, cut: int)
    requires
        0 <= cut <= input.len(),
        0 <= limit,
    ensures
        decode(input.take(cut), limit).data.is_prefix_of(decode(input, limit).data),
        decode(input.take(cut), limit).consumed <= min(cut, decode(input, limit).consumed),
{
    lemma_decode_from_cut(input, limit, start_of_stream(), Seq::empty(), cut);
}

/// What lies behind the consumed bytes does not matter: without it, the decode
/// is the same.
pub proof fn lemma_consumed_bytes_suffice(input: Seq<u8>, limit: int, cut: int)
    requires
        decode(input, limit).consumed <= cut <= input.len(),
        0 <= limit,
    ensures
        decode(input.take(cut), limit) == decode(input, limit),
{
    lemma_decode_bounds(input, limit);
    lemma_decode_from_cut(input, limit, start_of_stream(), Seq::empty(), cut);
}

/// A decode produces no more than the limit and consumes no more than the
/// stream.
pub proof fn lemma_decode_bounds(input: Seq<u8>, limit: int)
    requires
        0 <= limit,
    ensures
        decode(input, limit).data.len() <= limit,
        0 <= decode(input, limit).consumed <= input.len(),
{
    lemma_decode_from_bounds(input, limit, start_of_stream(), Seq::empty());
}

/// A smaller limit ends the same decode earlier.
proof fn lemma_decode_from_limit(
    input: Seq<u8>,
    limit: int,
    larger: int,
    cur: Cursor,
    out: Seq<u8>,
)
    requires
        within(cur, input.len() as int),
        out.len() <= limit <= larger,
    ensures
        ({
            let short = decode_from(input, limit, cur, out);
            let long = decode_from(input, larger, cur, out);
            &&& short.data == long.data.take(min(limit, long.data.len() as int))
            &&& short.consumed <= long.consumed
            &&& long.data.len() < limit ==> short == long
        }),
    decreases input.len() - cur.pos,
{
    lemma_decode_from_bounds(input, limit, cur, out);
    lemma_decode_from_bounds(input, larger, cur, out);
    let short = decode_from(input, limit, cur, out);
    let long = decode_from(input, larger, cur, out);
    if out.len() < limit {
        lemma_step_bounds(input, limit, cur, out);
        lemma_step_bounds(input, larger, cur, out);
        if let Step::Go(next, longer) = step(input, limit, cur, out) {
            if let Step::Go(same, longest) = step(input, larger, cur, out) {
                assert(next == same);
                assert(longer =~= longest.take(longer.len() as int));
                lemma_decode_from_bounds(input, larger, next, longest);
                if longer.len() < limit {
                    assert(longer =~= longest);
                    lemma_decode_from_limit(input, limit, larger, next, longer);
                } else {
                    assert(decode_from(input, limit, next, longer).data == longer);
                    assert(longer =~= long.data.take(limit));
                }
            }
        }
    }
    assert(short.data =~= long.data.take(min(limit, long.data.len() as int)));
}

/// Asking for fewer bytes yields the first of the bytes that asking for more
/// yields, and consumes no more of the stream for them.
pub proof fn lemma_smaller_limit(input: Seq<u8>, limit: int, larger: int)
    requires
        0 <= limit <= larger,
    ensures
        decode(input, limit).data == decode(input, larger).data.take(
            min(limit, decode(input, larger).data.len() as int),
        ),
        decode(input, limit).consumed <= decode(input, larger).consumed,
        decode(input, larger).data.len() < limit ==> decode(input, limit) == decode(input, larger),
{
    lemma_decode_from_limit(input, limit, larger, start_of_stream(), Seq::empty());
}

/// The stream that holds `bytes` as literals: groups of up to 32 of them, each
/// behind a flag word of zero.
pub open spec fn literal_stream(bytes: Seq<u8>) -> Seq<u8>
    decreases bytes.len(),
{
    if bytes.len() == 0 {
        Seq::empty()
    } else if bytes.len() <= 32 {
        seq![0u8, 0, 0, 0] + bytes
    } else {
        seq![0u8, 0, 0, 0] + bytes.take(32) + literal_stream(bytes.skip(32))
    }
}

/// While the flag word in force is zero, `n` bytes are `n` literals.
proof fn lemma_literal_run(input: Seq<u8>, limit: int, cur: Cursor, out: Seq<u8>, n: int)
    requires
        0 <= cur.pos,
        0 <= n <= cur.bits,
        cur.pos + n <= input.len(),
        cur.flags == 0,
        out.len() + n <= limit,
    ensures
        decode_from(input, limit, cur, out) == decode_from(
            input,
            limit,
            Cursor { pos: cur.pos + n, bits: cur.bits - n, ..cur },
            out + input.subrange(cur.pos, cur.pos + n),
        ),
    decreases n,
{
    if n == 0 {
        assert(out + input.subrange(cur.pos, cur.pos) =~= out);
    } else {
        let bit = (cur.bits - 1) as u32;
        assert(0u32 & (1u32 << bit) == 0) by (bit_vector);
        let next = Cursor { pos: cur.pos + 1, bits: cur.bits - 1, ..cur };
        let longer = out.push(input[cur.pos]);
        lemma_literal_run(input, limit, next, longer, n - 1);
        assert(longer + input.subrange(next.pos, cur.pos + n) =~= out + input.subrange(
            cur.pos,
            cur.pos + n,
        ));
    }
}

/// A literal stream decodes to its bytes from wherever it starts, so long as no
/// bit of an earlier flag word is left.
proof fn lemma_literal_stream_from(
    before: Seq<u8>,
    bytes: Seq<u8>,
    limit: int,
    cur: Cursor,
    out: Seq<u8>,
)
    requires
        cur.pos == before.len(),
        cur.bits == 0,
        out.len() + bytes.len() <= limit,
    ensures
        decode_from(before + literal_stream(bytes), limit, cur, out) == (Output {
            data: out + bytes,
            consumed: (before.len() + literal_stream(bytes).len()) as int,
        }),
    decreases bytes.len(),
{
    let input = before + literal_stream(bytes);
    if bytes.len() == 0 {
        assert(out + bytes =~= out);
    } else {
        let n = min(bytes.len() as int, 32);
        assert(input[cur.pos] == 0 && input[cur.pos + 1] == 0 && input[cur.pos + 2] == 0
            && input[cur.pos + 3] == 0);
        let open = Cursor { pos: cur.pos + 4, flags: 0, bits: 32, shared: cur.shared };
        assert(step(input, limit, cur, out) == Step::Go(open, out));
        lemma_literal_run(input, limit, open, out, n);
        let done = Cursor { pos: open.pos + n, bits: 32 - n, ..open };
        let longer = out + input.subrange(open.pos, open.pos + n);
        assert(input.subrange(open.pos, open.pos + n) =~= bytes.take(n));
        if bytes.len() <= 32 {
            assert(longer =~= out + bytes);
            let bit = (done.bits - 1) as u32;
            assert(0u32 & (1u32 << bit) == 0) by (bit_vector);
        } else {
            let through = before + (seq![0u8, 0, 0, 0] + bytes.take(32));
            assert(input =~= through + literal_stream(bytes.skip(32)));
            lemma_literal_stream_from(through, bytes.skip(32), limit, done, longer);
            assert(longer + bytes.skip(32) =~= out + bytes);
        }
    }
}

/// Literals survive the round trip, however many there are: a stream that holds
/// bytes as literals decodes to those bytes, and is consumed whole.
pub proof fn lemma_literals_round_trip(bytes: Seq<u8>, limit: int)
    requires
        bytes.len() <= limit,
    ensures
        decode(literal_stream(bytes), limit).data == bytes,
        decode(literal_stream(bytes), limit).consumed == literal_stream(bytes).len(),
{
    lemma_literal_stream_from(Seq::empty(), bytes, limit, start_of_stream(), Seq::empty());
    assert(Seq::empty() + literal_stream(bytes) =~= literal_stream(bytes));
    assert(Seq::empty() + bytes =~= bytes);
}

} // verus!
