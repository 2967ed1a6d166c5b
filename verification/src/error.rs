use vstd::prelude::*;

verus! {

/// Why an operation of this library did not do its work. Every failure leaves
/// the value it was asked to change as it was.
#[derive(Debug, Clone, Copy, PartialEq, Eq, Structural)]
pub enum Error {
    /// There are no samples to analyse.
    EmptyInput,
    /// The sample rate is too low for a 10 ms analysis window to hold a sample.
    SampleRateTooLow,
    /// No segment has the given index.
    IndexOutOfBounds,
    /// The segment has no segment behind it.
    NoNextSegment,
    /// The new boundary does not lie strictly inside the two segments it parts.
    BoundaryOutOfRange,
    /// A waveform bucket of the given length would hold no sample.
    BucketTooSmall,
    /// No clip is marked for export.
    ExportError,
}

} // verus!
