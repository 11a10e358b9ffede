//! Stitching ordered screenshots of a camera pan into a single still.
//!
//! The library finds where the frames stand ([`shifts`], [`geometry`]), puts them on a canvas
//! ([`nearest`], [`vertical`]), corrects them locally ([`local_warp`]), records where every pixel
//! comes from ([`source_map`], [`coord_map`]) and judges the result ([`evaluation`],
//! [`duplicates`], [`overlay`]); [`stitch`] joins the steps.
//!
//! Single-precision numbers pass through the library as bit patterns ([`single`]): it compares and
//! ranks them, and functions of the caller compute them.

pub mod alignment;
pub mod boundary;
pub mod buffers;
pub mod canvas;
pub mod components;
pub mod coord_map;
pub mod duplicates;
pub mod error;
pub mod evaluation;
pub mod foreground;
pub mod geometry;
pub mod grid;
pub mod local_warp;
pub mod monotonic;
pub mod motion;
pub mod nearest;
pub mod order;
pub mod overlay;
pub mod paste;
pub mod path;
pub mod pixel;
pub mod rounding;
pub mod sampling;
pub mod seam;
pub mod shifts;
pub mod single;
pub mod source_map;
pub mod stitch;
pub mod vertical;
pub mod warp;

pub use alignment::{
    candidate_allowed_full, candidate_allowed_scaled, OverlapWindow, PanMode, ShiftLimits,
};
pub use boundary::{
    add_pair_count, count_pair_risk, distinct_assigned_sources, handoffs_are_countable, pair_eq,
    source_boundary_map,
};
pub use buffers::{GrayImage, Rgb16Image, RgbImage};
pub use components::{neighbors4, risky_components, RiskyComponent};
pub use coord_map::{
    verify_source_coordinate_map, SourceCoordinateMap, SourceCoordinateVerification,
};
pub use duplicates::{
    avg_abs_diff_rect, detect_duplicate_bands, detect_duplicate_patches, detect_duplicates,
    patch_pair_close, DuplicateBand, DuplicatePatch, DuplicateReport,
};
pub use error::StitchError;
pub use evaluation::{
    evaluate_stitch, percentile_gradient, EvalFailure, EvalThresholds, EvaluationReport,
    HandoffPairReport,
};
pub use foreground::{
    dilate_bool_mask, foreground_mask_for_overlap, mask_covers_canvas_pixel, ForegroundMask,
};
pub use geometry::{normalize_positions, positions_from_shifts, Position, Shift};
pub use local_warp::{estimate_local_warp_delta, render_local_warped_from_source_map};
pub use monotonic::{longest_monotonic_indices, monotonic_active_sources};
pub use motion::{aligned_temporal_diff, covering_temporal_disagreement, motion_mask_for_overlap};
pub use nearest::{
    generate_source_map, synthesize_nearest_center, synthesize_nearest_center_with_source_map,
};
pub use overlay::{
    draw_duplicate_overlay, draw_evaluation_overlay, draw_point_thick, draw_rect,
    draw_source_block_overlay,
};
pub use paste::{paste_full, paste_unassigned, paste_with_seam};
pub use pixel::rgb_abs_diff;
pub use seam::{
    find_vertical_pan_seam, overlap_rect_with_existing, SeamCell, SeamOptions, Surroundings,
};
pub use shifts::{estimate_shifts, find_pair_shift, ncc_content_shift};
pub use single::Single;
pub use source_map::SourceMap;
pub use stitch::{
    stitch_images, stitch_images_with_source_map, SourceSelection, StitchOptions, StitchReport,
};
pub use vertical::{
    synthesize_vertical_seams_motion_with_source_map, synthesize_vertical_seams_with_source_map,
    synthesize_vertical_seams_with_source_map_opts,
};
pub use warp::LocalWarpReport;
