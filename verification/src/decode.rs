//! Decode and encode drivers, and the promise that ties them together: what was
//! encoded decodes to itself, whatever table layout is asked for.

use vstd::prelude::*;
use vstd::slice::slice_subrange;
use crate::weezl_codec::{
    decode_bytes, encode, encode_tiff, new_decoder, new_tiff_decoder, BitOrder, Step, StepStatus,
    StreamEnd, LITERAL_WIDTH,
};
use crate::weezl_codec::{
    decoder_state, fresh_decoder, marked_text, weezl_decoding, weezl_encoding, weezl_step,
    DecoderState,
};

verus! {

/// The spare room behind the expected text that a comparison decodes into.
pub const SPARE_ROOM: usize = 64;

/// The table layouts that a decoder can be asked for. They differ in speed
/// alone: `weezl` settles on a layout of its own, and no decoded byte depends
/// on the one asked for.
#[derive(Clone, Copy, Debug, PartialEq, Eq, Structural)]
pub enum TableStrategy {
    /// The classic layout.
    Classic,
    /// The chunked layout.
    Chunked,
    /// The tight layout.
    Tight,
}

/// Why a stream could not be decoded.
#[derive(Clone, Copy, Debug, PartialEq, Eq, Structural)]
pub enum DecodeError {
    /// The stream holds a code that no table entry stands for.
    InvalidCode,
}

/// The lesser of two lengths.
pub open spec fn lesser(a: nat, b: nat) -> nat {
    if a <= b {
        a
    } else {
        b
    }
}

/// Whether `stream` decodes to exactly `text` and then ends in an end code.
pub open spec fn decodes_to(order: BitOrder, tiff: bool, stream: Seq<u8>, text: Seq<u8>) -> bool {
    weezl_decoding(order, tiff, LITERAL_WIDTH, stream) == marked_text(text)
}

/// Where the decoding of a stream stands after some calls: how much of the
/// stream was read, how much was written, and the state of the decoder.
pub struct Standing {
    pub read: int,
    pub written: int,
    pub state: DecoderState,
}

/// Where the decoding of `stream` into `room` bytes of space stands after the
/// first `k` calls. Each call gets what is left of the stream and of the space.
pub open spec fn standing(
    order: BitOrder,
    tiff: bool,
    stream: Seq<u8>,
    room: nat,
    k: nat,
) -> Standing
    decreases k,
{
    if k == 0 {
        Standing { read: 0, written: 0, state: fresh_decoder(order, tiff, LITERAL_WIDTH) }
    } else {
        let before = standing(order, tiff, stream, room, (k - 1) as nat);
        let (step, state) = weezl_step(
            before.state,
            stream.skip(before.read),
            (room - before.written) as nat,
        );
        Standing {
            read: before.read + step.consumed_in,
            written: before.written + step.consumed_out,
            state,
        }
    }
}

/// The answer of the call that follows the first `k`.
pub open spec fn reply(order: BitOrder, tiff: bool, stream: Seq<u8>, room: nat, k: nat) -> Step {
    let before = standing(order, tiff, stream, room, k);
    weezl_step(before.state, stream.skip(before.read), (room - before.written) as nat).0
}

/// Whether no call is made behind the one that follows the first `k`: it failed,
/// came to the end or could not go on, or it used up both stream and space.
pub open spec fn stops(order: BitOrder, tiff: bool, stream: Seq<u8>, room: nat, k: nat) -> bool {
    reply(order, tiff, stream, room, k).status == StepStatus::Progress ==> {
        let after = standing(order, tiff, stream, room, k + 1);
        after.read == stream.len() && after.written == room
    }
}

/// Whether the call that follows the first `k` is the last one made.
pub open spec fn last_call(
    order: BitOrder,
    tiff: bool,
    stream: Seq<u8>,
    room: nat,
    k: nat,
) -> bool {
    &&& stops(order, tiff, stream, room, k)
    &&& forall|j: nat| j < k ==> !#[trigger] stops(order, tiff, stream, room, j)
}

/// Whether the last call meets an invalid code.
pub open spec fn fails(order: BitOrder, tiff: bool, stream: Seq<u8>, room: nat) -> bool {
    exists|k: nat| #[trigger]
        last_call(order, tiff, stream, room, k) && reply(order, tiff, stream, room, k).status
            == StepStatus::InvalidCode
}

/// Whether decoding `stream` into `room` bytes of space meets no invalid code:
/// the stream has none, or the space is used up before it, or the last call is
/// made before it is come to.
pub open spec fn decodes_cleanly(
    order: BitOrder,
    tiff: bool,
    stream: Seq<u8>,
    room: nat,
) -> bool {
    let whole = weezl_decoding(order, tiff, LITERAL_WIDTH, stream);
    whole.end != StreamEnd::InvalidCode || room < whole.text.len() || !fails(
        order,
        tiff,
        stream,
        room,
    )
}

/// What decoding `stream` into `room` bytes of space gives: `out` is the space
/// afterwards. The calls that are made decide: the count returned is that of all
/// the bytes written by them, and there is an error where the last of them meets
/// an invalid code. What they wrote is the text, as far as there is room for it;
/// an invalid code is met only once the whole text before it is written.
pub open spec fn decode_outcome(
    order: BitOrder,
    tiff: bool,
    stream: Seq<u8>,
    room: nat,
    result: Result<usize, DecodeError>,
    out: Seq<u8>,
) -> bool {
    let whole = weezl_decoding(order, tiff, LITERAL_WIDTH, stream);
    match result {
        Ok(n) => {
            &&& exists|k: nat|
                {
                    &&& #[trigger] last_call(order, tiff, stream, room, k)
                    &&& reply(order, tiff, stream, room, k).status != StepStatus::InvalidCode
                    &&& n == standing(order, tiff, stream, room, k + 1).written
                }
            &&& n == lesser(room, whole.text.len())
            &&& out.take(n as int) == whole.text.take(n as int)
            &&& whole.end == StreamEnd::InvalidCode ==> room <= whole.text.len()
        },
        Err(DecodeError::InvalidCode) => {
            &&& fails(order, tiff, stream, room)
            &&& whole.end == StreamEnd::InvalidCode
            &&& room >= whole.text.len()
            &&& out.take(whole.text.len() as int) == whole.text
        },
    }
}

/// Decodes `encoded` into `out` and returns how many bytes were written, or
/// that an invalid code was met.
#[verifier::loop_isolation(false)]
#[verifier::rlimit(60)]
#[verifier::spinoff_prover]
pub fn try_decode_weezl_with_order(
    encoded: &[u8],
    out: &mut [u8],
    strategy: TableStrategy,
    order: BitOrder,
    tiff: bool,
) -> (result: Result<usize, DecodeError>)
    ensures
        final(out)@.len() == old(out)@.len(),
        decode_outcome(order, tiff, encoded@, old(out)@.len(), result, final(out)@),
        ({
            let text = weezl_decoding(order, tiff, 8, encoded@).text;
            &&& result matches Ok(n) ==> {
                &&& n <= old(out)@.len() && n <= text.len()
                &&& n == old(out)@.len() || n == text.len()
                &&& forall|i: int| 0 <= i < n ==> #[trigger] final(out)@[i] == text[i]
            }
            &&& weezl_decoding(order, tiff, 8, encoded@).end != StreamEnd::InvalidCode
                ==> result is Ok
            &&& old(out)@.len() < text.len() ==> result is Ok
            &&& weezl_decoding(order, tiff, 8, encoded@).end == StreamEnd::InvalidCode
                && old(out)@.len() > text.len() ==> result is Err
        }),
{
    let ghost whole = weezl_decoding(order, tiff, LITERAL_WIDTH, encoded@);
    let mut decoder = if tiff {
        new_tiff_decoder(order, LITERAL_WIDTH)
    } else {
        new_decoder(order, LITERAL_WIDTH)
    };
    let room: usize = out.len();
    let mut read: usize = 0;
    let mut written: usize = 0;
    let ghost mut calls: nat = 0;
    loop
        invariant
            standing(order, tiff, encoded@, room as nat, calls) == (Standing {
                read: read as int,
                written: written as int,
                state: decoder_state(decoder),
            }),
            forall|j: nat|
                j < calls ==> !#[trigger] stops(order, tiff, encoded@, room as nat, j),
            read <= encoded@.len(),
            written <= room,
            room == out@.len(),
            decoder_state(decoder).order == order,
            decoder_state(decoder).tiff == tiff,
            decoder_state(decoder).size == LITERAL_WIDTH,
            !decoder_state(decoder).failed,
            decoder_state(decoder).taken == encoded@.take(read as int),
            decoder_state(decoder).given == out@.take(written as int),
        decreases encoded@.len() - read, room - written, decoder_state(decoder).held_bits,
    {
        let input = slice_subrange(encoded, read, encoded.len());
        let (_, cursor) = out.split_at_mut(written);
        let step = decode_bytes(&mut decoder, input, cursor);
        assert(encoded@.take(read as int) + input@ =~= encoded@);
        read = read + step.consumed_in;
        written = written + step.consumed_out;
        proof {
            let given = decoder_state(decoder).given;
            assert(out@.take(written as int) =~= given);
            assert(given =~= whole.text.take(written as int));
            assert forall|i: int| 0 <= i < written implies #[trigger] out@[i] == whole.text[i] by {
                assert(given[i] == out@.take(written as int)[i]);
                assert(given[i] == whole.text.take(written as int)[i]);
            }
            assert(decoder_state(decoder).taken =~= encoded@.take(read as int));
            assert(reply(order, tiff, encoded@, room as nat, calls) == step);
            if stops(order, tiff, encoded@, room as nat, calls) {
                assert(last_call(order, tiff, encoded@, room as nat, calls));
            }
        }
        match step.status {
            StepStatus::InvalidCode => return Err(DecodeError::InvalidCode),
            StepStatus::Done => return Ok(written),
            StepStatus::NoProgress => return Ok(written),
            StepStatus::Progress => {
                if read == encoded.len() && written == room {
                    return Ok(written);
                }
            },
        }
        proof {
            calls = calls + 1;
        }
    }
}

/// Decodes `encoded` into `out` and returns how many bytes were written: the
/// whole text, or as much of it as there is room for.
pub fn decode_weezl_with_order(
    encoded: &[u8],
    out: &mut [u8],
    strategy: TableStrategy,
    order: BitOrder,
    tiff: bool,
) -> (written: usize)
    requires
        decodes_cleanly(order, tiff, encoded@, old(out)@.len()),
    ensures
        final(out)@.len() == old(out)@.len(),
        decode_outcome(order, tiff, encoded@, old(out)@.len(), Ok(written), final(out)@),
{
    match try_decode_weezl_with_order(encoded, out, strategy, order, tiff) {
        Ok(written) => written,
        Err(_) => {
            assert(false);
            0
        },
    }
}

/// Decodes a GIF-style stream: least significant bit first, with the usual size
/// switch.
pub fn decode_weezl(encoded: &[u8], out: &mut [u8], strategy: TableStrategy) -> (written: usize)
    requires
        decodes_cleanly(BitOrder::Lsb, false, encoded@, old(out)@.len()),
    ensures
        final(out)@.len() == old(out)@.len(),
        decode_outcome(BitOrder::Lsb, false, encoded@, old(out)@.len(), Ok(written), final(out)@),
{
    decode_weezl_with_order(encoded, out, strategy, BitOrder::Lsb, false)
}

/// Encodes `data` with the given bit order and size switch.
pub fn encode_with_order(data: &[u8], order: BitOrder, tiff: bool) -> (stream: Vec<u8>)
    ensures
        stream@ == weezl_encoding(order, tiff, LITERAL_WIDTH, data@),
        stream@ == weezl_encoding(order, tiff, 8, data@),
        decodes_to(order, tiff, stream@, data@),
        weezl_decoding(order, tiff, 8, stream@) == marked_text(data@),
{
    let encoded = if tiff {
        encode_tiff(order, LITERAL_WIDTH, data)
    } else {
        encode(order, LITERAL_WIDTH, data)
    };
    match encoded {
        Ok(stream) => stream,
        Err(_) => {
            assert(false);
            Vec::new()
        },
    }
}

/// Encodes `data` as a GIF-style stream: least significant bit first, with the
/// usual size switch.
pub fn encode_lsb8(data: &[u8]) -> (stream: Vec<u8>)
    ensures
        stream@ == weezl_encoding(BitOrder::Lsb, false, LITERAL_WIDTH, data@),
        stream@ == weezl_encoding(BitOrder::Lsb, false, 8, data@),
        decodes_to(BitOrder::Lsb, false, stream@, data@),
        weezl_decoding(BitOrder::Lsb, false, 8, stream@) == marked_text(data@),
{
    encode_with_order(data, BitOrder::Lsb, false)
}

/// Whether two byte strings are the same.
pub fn same_bytes(a: &[u8], b: &[u8]) -> (same: bool)
    ensures
        same == (a@ == b@),
{
    if a.len() != b.len() {
        return false;
    }
    let mut i: usize = 0;
    while i < a.len()
        invariant
            i <= a@.len(),
            a@.len() == b@.len(),
            forall|k: int| 0 <= k < i ==> a@[k] == b@[k],
        decreases a@.len() - i,
    {
        if a[i] != b[i] {
            return false;
        }
        i += 1;
    }
    assert(a@ =~= b@);
    true
}

/// Encodes `data` and decodes the stream into a space somewhat larger than
/// `data`. Returns the stream and what it decoded to, which is `data` again.
pub fn roundtrip(data: &[u8], strategy: TableStrategy, order: BitOrder, tiff: bool) -> (result: (
    Vec<u8>,
    Vec<u8>,
))
    requires
        data@.len() + SPARE_ROOM <= usize::MAX,
    ensures
        result.0@ == weezl_encoding(order, tiff, LITERAL_WIDTH, data@),
        result.0@ == weezl_encoding(order, tiff, 8, data@),
        result.1@ == data@,
{
    let stream = encode_with_order(data, order, tiff);
    let mut out: Vec<u8> = vec![0u8; data.len() + SPARE_ROOM];
    let written = decode_weezl_with_order(
        stream.as_slice(),
        out.as_mut_slice(),
        strategy,
        order,
        tiff,
    );
    proof {
        law_roundtrip(order, tiff, data@, stream@, out@.len(), Ok(written), out@);
    }
    out.truncate(written);
    (stream, out)
}

/// What was encoded decodes to itself: a stream that `text` was encoded to,
/// decoded into a space that `text` fits in, leaves exactly `text` there.
pub proof fn law_roundtrip(
    order: BitOrder,
    tiff: bool,
    text: Seq<u8>,
    stream: Seq<u8>,
    room: nat,
    result: Result<usize, DecodeError>,
    out: Seq<u8>,
)
    requires
        decodes_to(order, tiff, stream, text),
        text.len() <= room,
        out.len() == room,
        decode_outcome(order, tiff, stream, room, result, out),
    ensures
        decodes_cleanly(order, tiff, stream, room),
        result matches Ok(n) && n == text.len() && out.take(n as int) == text,
{
    assert(text.take(text.len() as int) =~= text);
}

/// All table layouts agree: two decodings of one stream into spaces of one size
/// return the same, and leave the same bytes as far as they were written.
pub proof fn law_strategies_agree(
    order: BitOrder,
    tiff: bool,
    stream: Seq<u8>,
    room: nat,
    first: Result<usize, DecodeError>,
    first_out: Seq<u8>,
    second: Result<usize, DecodeError>,
    second_out: Seq<u8>,
)
    requires
        decode_outcome(order, tiff, stream, room, first, first_out),
        decode_outcome(order, tiff, stream, room, second, second_out),
    ensures
        first == second,
        first matches Ok(n) ==> first_out.take(n as int) == second_out.take(n as int),
        first is Err ==> {
            let whole = weezl_decoding(order, tiff, LITERAL_WIDTH, stream);
            first_out.take(whole.text.len() as int) == second_out.take(whole.text.len() as int)
        },
{
    law_failure_is_decided(order, tiff, stream, room, first, first_out);
    law_failure_is_decided(order, tiff, stream, room, second, second_out);
    match (first, second) {
        (Err(a), Err(b)) => assert(a == DecodeError::InvalidCode && b == DecodeError::InvalidCode),
        _ => {},
    }
}

/// Whether an invalid code is met follows from the stream and the space: the
/// decoding fails or succeeds, and never both.
pub proof fn law_failure_is_decided(
    order: BitOrder,
    tiff: bool,
    stream: Seq<u8>,
    room: nat,
    result: Result<usize, DecodeError>,
    out: Seq<u8>,
)
    requires
        decode_outcome(order, tiff, stream, room, result, out),
    ensures
        result is Err <==> fails(order, tiff, stream, room),
        decodes_cleanly(order, tiff, stream, room) <==> result is Ok,
{
    if result is Ok && fails(order, tiff, stream, room) {
        let j = choose|j: nat| #[trigger]
            last_call(order, tiff, stream, room, j) && reply(order, tiff, stream, room, j).status
                == StepStatus::InvalidCode;
        let k = choose|k: nat| #[trigger]
            last_call(order, tiff, stream, room, k) && reply(order, tiff, stream, room, k).status
                != StepStatus::InvalidCode;
        assert(stops(order, tiff, stream, room, j));
        assert(stops(order, tiff, stream, room, k));
    }
}

/// A smaller space gets the start of what a larger one gets.
pub proof fn law_smaller_space_gets_a_prefix(
    order: BitOrder,
    tiff: bool,
    stream: Seq<u8>,
    small_room: nat,
    small: usize,
    small_out: Seq<u8>,
    large_room: nat,
    large: usize,
    large_out: Seq<u8>,
)
    requires
        small_room <= large_room,
        small_out.len() == small_room,
        large_out.len() == large_room,
        decode_outcome(order, tiff, stream, small_room, Ok(small), small_out),
        decode_outcome(order, tiff, stream, large_room, Ok(large), large_out),
    ensures
        small <= large,
        small_out.take(small as int) == large_out.take(small as int),
{
    let whole = weezl_decoding(order, tiff, LITERAL_WIDTH, stream);
    assert(large_out.take(large as int).take(small as int) =~= large_out.take(small as int));
    assert(whole.text.take(large as int).take(small as int) =~= whole.text.take(small as int));
}

/// What is written is the text, byte for byte from its start, until the text or
/// the space is at its end; and an error comes only of an invalid code, once all
/// of the text before it is written.
pub proof fn law_decoding_writes_the_text(
    order: BitOrder,
    tiff: bool,
    stream: Seq<u8>,
    room: nat,
    result: Result<usize, DecodeError>,
    out: Seq<u8>,
)
    requires
        out.len() == room,
        decode_outcome(order, tiff, stream, room, result, out),
    ensures
        ({
            let whole = weezl_decoding(order, tiff, 8, stream);
            match result {
                Ok(n) => {
                    &&& n <= room && n <= whole.text.len()
                    &&& n == room || n == whole.text.len()
                    &&& forall|i: int| 0 <= i < n ==> #[trigger] out[i] == whole.text[i]
                    &&& whole.end == StreamEnd::InvalidCode ==> n == room
                },
                Err(_) => {
                    &&& whole.end == StreamEnd::InvalidCode
                    &&& whole.text.len() <= room
                    &&& forall|i: int|
                        0 <= i < whole.text.len() ==> #[trigger] out[i] == whole.text[i]
                },
            }
        }),
{
    let text = weezl_decoding(order, tiff, 8, stream).text;
    match result {
        Ok(n) => {
            assert forall|i: int| 0 <= i < n implies #[trigger] out[i] == text[i] by {
                assert(out.take(n as int)[i] == text.take(n as int)[i]);
            }
        },
        Err(_) => {
            assert forall|i: int| 0 <= i < text.len() implies #[trigger] out[i] == text[i] by {
                assert(out.take(text.len() as int)[i] == text[i]);
            }
        },
    }
}

/// Every call gets what the calls before it have left: the first a decoder that
/// has done nothing, all of the stream and all of the space, and each other the
/// decoder as it was left, the stream from where it was read to, and the space
/// from where it was written to. A call is the last where it came to the end,
/// failed or could not go on, or where nothing is left of stream and space alike.
pub proof fn law_calls_go_on_where_others_stopped(
    order: BitOrder,
    tiff: bool,
    stream: Seq<u8>,
    room: nat,
    k: nat,
)
    ensures
        ({
            let first = standing(order, tiff, stream, room, 0);
            let before = standing(order, tiff, stream, room, k);
            let after = standing(order, tiff, stream, room, k + 1);
            let step = reply(order, tiff, stream, room, k);
            &&& first.read == 0 && first.written == 0
            &&& first.state == fresh_decoder(order, tiff, 8)
            &&& (step, after.state) == weezl_step(
                before.state,
                stream.subrange(before.read, stream.len() as int),
                (room - before.written) as nat,
            )
            &&& after.read - before.read == step.consumed_in
            &&& after.written - before.written == step.consumed_out
            &&& !stops(order, tiff, stream, room, k) <==> step.status == StepStatus::Progress && (
            after.read != stream.len() || after.written != room)
        }),
{
}

/// Of all calls one is the last: none before it stops, and two that are the last
/// are the same.
pub proof fn law_one_call_is_the_last(
    order: BitOrder,
    tiff: bool,
    stream: Seq<u8>,
    room: nat,
    j: nat,
    k: nat,
)
    requires
        last_call(order, tiff, stream, room, j),
    ensures
        stops(order, tiff, stream, room, j),
        k < j ==> !stops(order, tiff, stream, room, k),
        last_call(order, tiff, stream, room, k) ==> j == k,
{
    if last_call(order, tiff, stream, room, k) {
        assert(stops(order, tiff, stream, room, k));
        assert(stops(order, tiff, stream, room, j));
    }
}

} // verus!
