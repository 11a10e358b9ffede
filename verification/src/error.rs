//! What can go wrong while frames are stitched.

use vstd::prelude::*;

use crate::alignment::PanMode;

verus! {

/// The reasons for which a stitch is refused.
#[derive(Debug, Clone, Copy, PartialEq, Eq, Structural)]
pub enum StitchError {
    /// A pan needs at least two frames.
    TooFewFrames,
    /// A canvas needs at least one frame.
    NoFrames,
    /// A frame differs in size from the first one.
    FrameSizeMismatch {
        width: u32,
        height: u32,
        frame: usize,
        frame_width: u32,
        frame_height: u32,
    },
    /// There is not one foreground mask for each frame.
    MaskCountMismatch { masks: usize, frames: usize },
    /// A foreground mask differs in size from the frames.
    MaskSizeMismatch {
        mask: usize,
        mask_width: u32,
        mask_height: u32,
        width: u32,
        height: u32,
    },
    /// Two alignment images differ in size.
    AlignmentSizeMismatch,
    /// No displacement that the mode allows gave a usable score.
    NoValidShift { mode: PanMode },
    /// The canvas that holds all frames is larger than an image can be.
    CanvasTooLarge,
    /// The canvas shows the same content twice.
    DuplicateContent,
}

} // verus!
