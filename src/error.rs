use vstd::prelude::*;

verus! {

/// Why an operation on subtitles or timestamps was refused.
#[derive(Debug, Clone, Copy, PartialEq, Eq, Structural)]
pub enum SrtError {
    /// The normalized text holds no subtitle block at all.
    NotSrtFormat,
    /// A subtraction or a shift would take a time below zero.
    NegativeDuration,
    /// The cues do not form a valid sequence: indices are not `1, 2, ...`,
    /// a cue ends before it starts or holds an unnormalized time, or the
    /// start times are out of order.
    IndexContiguityFault,
}

} // verus!
