//! Errors reported by the coders.
use vstd::prelude::*;

verus! {

/// What can go wrong while building tables or coding a message.
#[derive(Debug, Clone, Copy, PartialEq, Eq, Structural)]
pub enum CodecError {
    /// The frequencies do not sum to the number of states, or the number of
    /// states is beyond what the coder supports.
    InvalidDistribution,
    /// A symbol whose frequency is zero was given to the encoder.
    ZeroFrequencySymbol,
    /// The input ended before all the bits or bytes asked for were read.
    TruncatedInput,
    /// A backreference points before the start of the output.
    BadReference,
}

} // verus!
