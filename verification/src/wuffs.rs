//! What surrounds a call of the `wuffs_lzw` decoder, which is reached through C.

use vstd::prelude::*;

verus! {

/// What the decoder returns in place of a count when it fails.
pub const WUFFS_FAILED: usize = usize::MAX;

/// Why a stream could not be decoded.
#[derive(Clone, Copy, Debug, PartialEq, Eq, Structural)]
pub enum WuffsError {
    /// The decoder reported a failure. It does not say which.
    Failed,
}

/// How the decoder is told the literal width: one more than it, which is the
/// width of the first codes.
pub fn literal_width_plus_one(literal_width: u8) -> (plus_one: u32)
    ensures
        plus_one == literal_width + 1,
{
    literal_width as u32 + 1
}

/// What the number that the decoder returned says: how many bytes were written,
/// or that it failed.
pub fn wuffs_outcome(returned: usize) -> (result: Result<usize, WuffsError>)
    ensures
        match result {
            Ok(written) => returned != WUFFS_FAILED && written == returned,
            Err(WuffsError::Failed) => returned == WUFFS_FAILED,
        },
        result is Err <==> returned == usize::MAX,
        result matches Ok(written) ==> written == returned,
{
    if returned == WUFFS_FAILED {
        Err(WuffsError::Failed)
    } else {
        Ok(returned)
    }
}

} // verus!
