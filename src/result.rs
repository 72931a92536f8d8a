use vstd::prelude::*;

verus! {

/// Why a decode call returned.
#[derive(PartialEq, Eq, Structural, Debug, Clone, Copy)]
pub enum DecoderResult {
    /// All input was taken; more may follow in a later call.
    InputEmpty,
    /// The output has no room for the next code point; no state was lost.
    OutputFull,
    /// A malformed sequence of this many bytes (1 or 2) ends at the reported
    /// read position.
    Malformed(u8),
}

} // verus!
