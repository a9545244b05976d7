//! The `weezl` codec as this library sees it.
//!
//! Every call into `weezl` stands here. What a stream decodes to, and what a
//! text encodes to, is named once ([`weezl_decoding`], [`weezl_encoding`]);
//! the functions around the calls say over these names what each call does.

use vstd::prelude::*;

verus! {

/// The width of a literal in bits: one byte.
pub const LITERAL_WIDTH: u8 = 8;

/// The order in which the bits of a code are packed into bytes.
#[derive(Clone, Copy, Debug, PartialEq, Eq, Structural)]
pub enum BitOrder {
    /// Most significant bit first, as in TIFF.
    Msb,
    /// Least significant bit first, as in GIF.
    Lsb,
}

/// What brings the decoding of a stream to its end.
#[derive(Clone, Copy, Debug, PartialEq, Eq, Structural)]
pub enum StreamEnd {
    /// The end code.
    Marked,
    /// The stream holds no further whole code, and no end code came before.
    Truncated,
    /// A code that no table entry stands for.
    InvalidCode,
}

/// Everything there is to know of a stream: the bytes that it decodes to up to
/// its end, and what that end is.
pub struct Decoding {
    pub text: Seq<u8>,
    pub end: StreamEnd,
}

/// What a decoder has done since it was built.
pub struct DecoderState {
    pub order: BitOrder,
    pub tiff: bool,
    pub size: u8,
    /// The input bytes that it has taken.
    pub taken: Seq<u8>,
    /// The output bytes that it has written.
    pub given: Seq<u8>,
    /// How many of the bits taken it has not yet read as part of a code.
    pub held_bits: nat,
    /// Whether it has met an invalid code.
    pub failed: bool,
}

/// The status that one decoding call ends with.
#[derive(Clone, Copy, Debug, PartialEq, Eq, Structural)]
pub enum StepStatus {
    /// Some progress was made.
    Progress,
    /// Nothing was read or written and no internal state advanced.
    NoProgress,
    /// The end code was reached.
    Done,
    /// The input holds an invalid code.
    InvalidCode,
}

/// The outcome of one decoding call.
#[derive(Clone, Copy, Debug, PartialEq, Eq, Structural)]
pub struct Step {
    pub consumed_in: usize,
    pub consumed_out: usize,
    pub status: StepStatus,
}

/// A `weezl` decoder, with its tables and bit buffer, carried as it is.
#[verifier::external_type_specification]
#[verifier::external_body]
pub struct ExDecoder(weezl::decode::Decoder);

/// What `weezl` decodes `stream` to, with the given bit order, TIFF size
/// switch and literal width.
pub uninterp spec fn weezl_decoding(
    order: BitOrder,
    tiff: bool,
    size: u8,
    stream: Seq<u8>,
) -> Decoding;

/// What the decoder has done since it was built.
pub uninterp spec fn decoder_state(decoder: weezl::decode::Decoder) -> DecoderState;

/// A decoder that has done nothing yet.
pub open spec fn fresh_decoder(order: BitOrder, tiff: bool, size: u8) -> DecoderState {
    DecoderState {
        order,
        tiff,
        size,
        taken: Seq::empty(),
        given: Seq::empty(),
        held_bits: 0,
        failed: false,
    }
}

/// Calls `weezl::decode::Configuration::new` and `build`: a decoder for the
/// given order and width, with the usual size switch, that has done nothing
/// yet. The outside constructor panics on a width above twelve.
#[verifier::external_body]
pub(crate) fn new_decoder(order: BitOrder, size: u8) -> (decoder: weezl::decode::Decoder)
    requires
        size <= 12,
    ensures
        decoder_state(decoder) == fresh_decoder(order, false, size),
{
    let order = match order {
        BitOrder::Msb => weezl::BitOrder::Msb,
        BitOrder::Lsb => weezl::BitOrder::Lsb,
    };
    weezl::decode::Configuration::new(order, size).build()
}

/// Calls `weezl::decode::Configuration::with_tiff_size_switch` and `build`: as
/// [`new_decoder`], with the size switch of TIFF.
#[verifier::external_body]
pub(crate) fn new_tiff_decoder(order: BitOrder, size: u8) -> (decoder: weezl::decode::Decoder)
    requires
        size <= 12,
    ensures
        decoder_state(decoder) == fresh_decoder(order, true, size),
{
    let order = match order {
        BitOrder::Msb => weezl::BitOrder::Msb,
        BitOrder::Lsb => weezl::BitOrder::Lsb,
    };
    weezl::decode::Configuration::with_tiff_size_switch(order, size).build()
}

/// What one call of `weezl`'s `decode_bytes` answers, and the state that it
/// leaves the decoder in, where the decoder was in state `before` and is handed
/// `input` and room for `room` bytes.
pub uninterp spec fn weezl_step(before: DecoderState, input: Seq<u8>, room: nat) -> (
    Step,
    DecoderState,
);

/// What one call of `decode_bytes` does to a decoder that was in state
/// `before`, is handed `input` and room for `room` bytes, and comes out in
/// state `after` with `step`, having left `written` at the start of the room.
/// `whole` is what the bytes taken before and `input` decode to together.
pub open spec fn step_done(
    before: DecoderState,
    input: Seq<u8>,
    room: nat,
    whole: Decoding,
    step: Step,
    written: Seq<u8>,
    after: DecoderState,
) -> bool {
    &&& step.consumed_in <= input.len()
    &&& step.consumed_out <= room
    &&& written.len() == step.consumed_out
    // The settings stay; what was consumed and written is on record.
    &&& after.order == before.order
    &&& after.tiff == before.tiff
    &&& after.size == before.size
    &&& after.taken == before.taken + input.take(step.consumed_in as int)
    &&& after.given == before.given + written
    &&& after.failed == (step.status == StepStatus::InvalidCode)
    // All that was ever written is a prefix of what the stream decodes to.
    &&& after.given.is_prefix_of(whole.text)
    &&& match step.status {
        // The end code comes after the whole text.
        StepStatus::Done => after.given == whole.text && whole.end == StreamEnd::Marked,
        // So does an invalid code.
        StepStatus::InvalidCode => after.given == whole.text && whole.end
            == StreamEnd::InvalidCode,
        // Stuck: there is text left and no room for it, or there is no code left to read.
        StepStatus::NoProgress => {
            &&& step.consumed_in == 0 && step.consumed_out == 0
            &&& {
                ||| room == 0 && after.given.len() < whole.text.len()
                ||| input.len() == 0 && after.given == whole.text && whole.end
                    == StreamEnd::Truncated
            }
        },
        // Bytes were read or written, or else a code was read from the bits held.
        StepStatus::Progress => step.consumed_in > 0 || step.consumed_out > 0 || after.held_bits
            < before.held_bits,
    }
}

/// Calls `weezl::decode::Decoder::decode_bytes`, which takes a prefix of the
/// input and writes to a prefix of the room. Its answer and the state after it
/// follow from the state before it, the input and the length of the room, and
/// are named [`weezl_step`]. [`step_done`] says of them how the bytes written so
/// far relate to what the whole stream decodes to and what each status tells.
/// The contract does not say what stands in the room behind the
/// bytes written: the outside decoder writes in units of eight bytes and may
/// change some of what follows.
#[verifier::external_body]
pub(crate) fn decode_bytes(
    decoder: &mut weezl::decode::Decoder,
    input: &[u8],
    room: &mut [u8],
) -> (step: Step)
    requires
        decoder_state(*old(decoder)).size == LITERAL_WIDTH,
        !decoder_state(*old(decoder)).failed,
    ensures
        final(room)@.len() == old(room)@.len(),
        (step, decoder_state(*final(decoder))) == weezl_step(
            decoder_state(*old(decoder)),
            input@,
            old(room)@.len(),
        ),
        step_done(
            decoder_state(*old(decoder)),
            input@,
            old(room)@.len(),
            weezl_decoding(
                decoder_state(*old(decoder)).order,
                decoder_state(*old(decoder)).tiff,
                decoder_state(*old(decoder)).size,
                decoder_state(*old(decoder)).taken + input@,
            ),
            step,
            final(room)@.take(step.consumed_out as int),
            decoder_state(*final(decoder)),
        ),
{
    let result = decoder.decode_bytes(input, room);
    let status = match result.status {
        Ok(weezl::LzwStatus::Ok) => StepStatus::Progress,
        Ok(weezl::LzwStatus::NoProgress) => StepStatus::NoProgress,
        Ok(weezl::LzwStatus::Done) => StepStatus::Done,
        Err(weezl::LzwError::InvalidCode) => StepStatus::InvalidCode,
    };
    Step { consumed_in: result.consumed_in, consumed_out: result.consumed_out, status }
}

/// A `weezl` error value, carried as it is.
#[verifier::external_type_specification]
#[verifier::external_body]
pub struct ExLzwError(weezl::LzwError);

/// What `weezl` encodes `text` to, with the given bit order, TIFF size switch
/// and literal width.
pub uninterp spec fn weezl_encoding(
    order: BitOrder,
    tiff: bool,
    size: u8,
    text: Seq<u8>,
) -> Seq<u8>;

/// What the decoding of an encoded text is: that text, up to an end code.
pub open spec fn marked_text(text: Seq<u8>) -> Decoding {
    Decoding { text, end: StreamEnd::Marked }
}

/// Calls `weezl::encode::Encoder::new` and `encode`. Every byte has a code at
/// a literal width of eight, so the call succeeds; the stream ends in an end
/// code, and decoding it with the same settings gives the text back.
#[verifier::external_body]
pub(crate) fn encode(order: BitOrder, size: u8, text: &[u8]) -> (result: Result<
    Vec<u8>,
    weezl::LzwError,
>)
    requires
        size == LITERAL_WIDTH,
    ensures
        result is Ok,
        result->Ok_0@ == weezl_encoding(order, false, size, text@),
        weezl_decoding(order, false, size, result->Ok_0@) == marked_text(text@),
{
    let order = match order {
        BitOrder::Msb => weezl::BitOrder::Msb,
        BitOrder::Lsb => weezl::BitOrder::Lsb,
    };
    weezl::encode::Encoder::new(order, size).encode(text)
}

/// Calls `weezl::encode::Encoder::with_tiff_size_switch` and `encode`: as
/// [`encode`], with the size switch of TIFF.
#[verifier::external_body]
pub(crate) fn encode_tiff(order: BitOrder, size: u8, text: &[u8]) -> (result: Result<
    Vec<u8>,
    weezl::LzwError,
>)
    requires
        size == LITERAL_WIDTH,
    ensures
        result is Ok,
        result->Ok_0@ == weezl_encoding(order, true, size, text@),
        weezl_decoding(order, true, size, result->Ok_0@) == marked_text(text@),
{
    let order = match order {
        BitOrder::Msb => weezl::BitOrder::Msb,
        BitOrder::Lsb => weezl::BitOrder::Lsb,
    };
    weezl::encode::Encoder::with_tiff_size_switch(order, size).encode(text)
}

} // verus!
