//! The choices of a profiling run, which decodes one input over and over.

use vstd::prelude::*;
use crate::corpus::{same_text, Input};
use crate::corpus::law_input_decodes_to_its_text;
use crate::decode::{decode_weezl, TableStrategy, SPARE_ROOM};
use crate::decode::decodes_cleanly;
use crate::weezl_codec::BitOrder;

verus! {

/// The decoders that can be profiled.
#[derive(Clone, Copy, Debug, PartialEq, Eq, Structural)]
pub enum Backend {
    /// `weezl` with the classic table layout.
    Classic,
    /// `weezl` with the chunked table layout.
    Chunked,
    /// `wuffs_lzw`.
    Wuffs,
}

/// The decoder that goes by a name.
pub open spec fn backend_named(name: Seq<char>) -> Option<Backend> {
    if name == "classic"@ {
        Some(Backend::Classic)
    } else if name == "chunked"@ {
        Some(Backend::Chunked)
    } else if name == "wuffs"@ {
        Some(Backend::Wuffs)
    } else {
        None
    }
}

/// The decoder that goes by a name.
pub fn parse_backend(name: &str) -> (backend: Option<Backend>)
    ensures
        backend == backend_named(name@),
        backend == Some(Backend::Classic) <==> name@ == "classic"@,
        backend == Some(Backend::Chunked) <==> name@ == "chunked"@,
        backend == Some(Backend::Wuffs) <==> name@ == "wuffs"@,
{
    proof {
        reveal_strlit("classic");
        reveal_strlit("chunked");
        reveal_strlit("wuffs");
        assert("classic"@[1] == 'l' && "chunked"@[1] == 'h' && "wuffs"@[1] == 'u');
    }
    if same_text(name, "classic") {
        Some(Backend::Classic)
    } else if same_text(name, "chunked") {
        Some(Backend::Chunked)
    } else if same_text(name, "wuffs") {
        Some(Backend::Wuffs)
    } else {
        None
    }
}

/// The table layout that a decoder stands for, if it is `weezl`.
pub fn table_strategy(backend: Backend) -> (strategy: Option<TableStrategy>)
    ensures
        strategy == match backend {
            Backend::Classic => Some(TableStrategy::Classic),
            Backend::Chunked => Some(TableStrategy::Chunked),
            Backend::Wuffs => None,
        },
{
    match backend {
        Backend::Classic => Some(TableStrategy::Classic),
        Backend::Chunked => Some(TableStrategy::Chunked),
        Backend::Wuffs => None,
    }
}

/// Decodes the stream of an input into a space that its text fits in. The count
/// of bytes written is that of the text, with every table layout.
pub fn decode_input(input: &Input, out: &mut [u8], strategy: TableStrategy) -> (written: usize)
    requires
        input.wf(),
        input.raw@.len() <= old(out)@.len(),
    ensures
        final(out)@.len() == old(out)@.len(),
        written == input.raw@.len(),
        final(out)@.take(written as int) == input.raw@,
{
    assert(decodes_cleanly(BitOrder::Lsb, false, input.encoded@, old(out)@.len()));
    let written = decode_weezl(input.encoded.as_slice(), out, strategy);
    proof {
        law_input_decodes_to_its_text(*input, out@.len(), Ok(written), out@);
    }
    written
}

/// Makes an input of a text and decodes its stream once, into a space somewhat
/// larger than the text. Returns the input and what its stream decoded to, which
/// is the text again.
pub fn build_and_decode(name: &'static str, raw: Vec<u8>, strategy: TableStrategy) -> (result: (
    Input,
    Vec<u8>,
))
    requires
        raw@.len() + SPARE_ROOM <= usize::MAX,
    ensures
        result.0.wf(),
        result.0.name@ == name@,
        result.0.raw@ == raw@,
        result.1@ == raw@,
{
    let input = Input::build(name, raw);
    let mut out: Vec<u8> = vec![0u8; input.raw.len() + SPARE_ROOM];
    let written = decode_input(&input, out.as_mut_slice(), strategy);
    out.truncate(written);
    (input, out)
}

} // verus!
