//! A check of a single decoding call against the text that was encoded.

use vstd::prelude::*;
use vstd::slice::slice_subrange;
use crate::corpus::Input;
use crate::decode::{encode_with_order, same_bytes, SPARE_ROOM};
use crate::decode::lesser;
use crate::weezl_codec::{decode_bytes, new_decoder, BitOrder, Step, StepStatus, LITERAL_WIDTH};
use crate::weezl_codec::{decoder_state, fresh_decoder, weezl_encoding, weezl_step};

verus! {

/// How the outcome of a decoding call compares to the text that was encoded.
#[derive(Clone, Copy, Debug, PartialEq, Eq, Structural)]
pub struct Comparison {
    /// Whether the call succeeded and wrote exactly the text.
    pub ok: bool,
    /// The first byte written that is not that of the text.
    pub first_diff: Option<usize>,
}

/// What is reported of one input.
#[derive(Clone, Copy, Debug, PartialEq, Eq, Structural)]
pub struct Report {
    pub raw_bytes: usize,
    pub encoded_bytes: usize,
    pub step: Step,
    pub comparison: Comparison,
}

/// Whether the first place at which the first `n` bytes of `out` and `raw`
/// differ is `at`; none where they do not differ as far as both go.
pub open spec fn differs_first_at(raw: Seq<u8>, out: Seq<u8>, n: nat, at: Option<usize>) -> bool {
    let both = lesser(n, raw.len());
    match at {
        Some(i) => {
            &&& i < both
            &&& out[i as int] != raw[i as int]
            &&& forall|k: int| 0 <= k < i ==> #[trigger] out[k] == raw[k]
        },
        None => forall|k: int| 0 <= k < both ==> #[trigger] out[k] == raw[k],
    }
}

/// Compares what a decoding call did, which ended with `step` and left `out`, to
/// the text that was encoded.
pub fn compare(raw: &[u8], out: &[u8], step: Step) -> (comparison: Comparison)
    requires
        step.consumed_out <= out@.len(),
    ensures
        comparison.ok == (step.status != StepStatus::InvalidCode && out@.take(
            step.consumed_out as int,
        ) == raw@),
        differs_first_at(raw@, out@, step.consumed_out as nat, comparison.first_diff),
        comparison.first_diff matches Some(i) ==> {
            &&& i < step.consumed_out && i < raw@.len()
            &&& out@[i as int] != raw@[i as int]
            &&& forall|k: int| 0 <= k < i ==> #[trigger] out@[k] == raw@[k]
        },
        comparison.first_diff is None ==> forall|k: int|
            0 <= k < step.consumed_out && k < raw@.len() ==> #[trigger] out@[k] == raw@[k],
{
    let written = slice_subrange(out, 0, step.consumed_out);
    assert(written@ =~= out@.take(step.consumed_out as int));
    let failed = match step.status {
        StepStatus::InvalidCode => true,
        _ => false,
    };
    let ok = !failed && same_bytes(written, raw);
    let both: usize = if step.consumed_out <= raw.len() {
        step.consumed_out
    } else {
        raw.len()
    };
    let mut i: usize = 0;
    while i < both && out[i] == raw[i]
        invariant
            i <= both <= out@.len(),
            both <= raw@.len(),
            forall|k: int| 0 <= k < i ==> #[trigger] out@[k] == raw@[k],
        decreases both - i,
    {
        i += 1;
    }
    let first_diff = if i < both {
        Some(i)
    } else {
        None
    };
    Comparison { ok, first_diff }
}

/// Encodes the text of an input with the most significant bit first, hands the
/// stream to a decoder in one call, and compares what it wrote to the text. One
/// call need not decode all of a stream, but what it writes is the start of the
/// text.
pub fn report(input: &Input) -> (report: Report)
    requires
        input.raw@.len() + SPARE_ROOM <= usize::MAX,
    ensures
        report.raw_bytes == input.raw@.len(),
        report.encoded_bytes == weezl_encoding(
            BitOrder::Msb,
            false,
            LITERAL_WIDTH,
            input.raw@,
        ).len(),
        report.step == weezl_step(
            fresh_decoder(BitOrder::Msb, false, LITERAL_WIDTH),
            weezl_encoding(BitOrder::Msb, false, LITERAL_WIDTH, input.raw@),
            (input.raw@.len() + SPARE_ROOM) as nat,
        ).0,
        report.step == weezl_step(
            fresh_decoder(BitOrder::Msb, false, 8),
            weezl_encoding(BitOrder::Msb, false, 8, input.raw@),
            input.raw@.len() + 64,
        ).0,
        report.step.status != StepStatus::InvalidCode,
        report.step.status == StepStatus::Done ==> report.step.consumed_out == input.raw@.len(),
        report.step.consumed_in <= report.encoded_bytes,
        report.step.consumed_out <= input.raw@.len(),
        report.comparison.ok == (report.step.consumed_out == input.raw@.len()),
        report.comparison.first_diff is None,
{
    let raw = input.raw.as_slice();
    let encoded = encode_with_order(raw, BitOrder::Msb, false);
    let mut out: Vec<u8> = vec![0u8; raw.len() + SPARE_ROOM];
    let mut decoder = new_decoder(BitOrder::Msb, LITERAL_WIDTH);
    let step = decode_bytes(&mut decoder, encoded.as_slice(), out.as_mut_slice());
    proof {
        assert(Seq::<u8>::empty() + encoded@ =~= encoded@);
        let given = decoder_state(decoder).given;
        assert(given =~= out@.take(step.consumed_out as int));
        assert(forall|k: int| 0 <= k < given.len() ==> #[trigger] out@[k] == given[k]);
        assert(forall|k: int| 0 <= k < given.len() ==> #[trigger] given[k] == raw@[k]);
        if given.len() == raw@.len() {
            assert(given =~= raw@);
        }
    }
    let comparison = compare(raw, out.as_slice(), step);
    Report { raw_bytes: raw.len(), encoded_bytes: encoded.len(), step, comparison }
}

} // verus!
