//! The ways in which a conversion can fail.

use vstd::prelude::*;

verus! {

/// Why a conversion failed. Every failure is final: nothing is retried and
/// no partial output is produced.
#[derive(Clone, Copy, Debug, PartialEq, Eq, Structural)]
pub enum EncodeError {
    /// The source file holds no model at all.
    NoModelsInFile,
    /// The source file could not be read or parsed. The library never reads
    /// files itself; the caller that does reports failure with this variant.
    UnreadableInputFile,
    /// An axis of the bounding box is longer than 255, so that its length
    /// minus one does not fit a header byte.
    DimensionOverflow,
    /// A voxel lies outside the bounding box of its model.
    VoxelOutOfBounds,
    /// The compressor reported the error `code`.
    CompressionFailure { code: u64 },
    /// An animation has no frame, or more than 256.
    TooManyFrames,
}

} // verus!
