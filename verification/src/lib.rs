//! The core of the HistDiff score: the plate and its well names, the reading
//! of the table's header, the two passes over its rows, and the grouping of
//! wells and controls that each block is scored from. Measured values enter
//! and leave as IEEE-754 bit patterns.

pub mod digits;
pub mod errors;
pub mod header;
pub mod histograms;
pub mod ieee;
pub mod index;
pub mod names;
pub mod ranges;
pub mod scoring;
pub mod utils;
pub mod wells;

pub use errors::HistDiffError;
pub use header::{resolve_header, HeaderLayout};
pub use histograms::{check_score_shapes, Hist1D};
pub use ranges::{
    adjust_min_max, get_min_max_plate, scan_ranges, MinMax, MinMaxPlateResult, RangeScan,
};
pub use scoring::{score_block, score_blocks, sign_scores, signed_score, BlockGroup};
pub use utils::{clean_well_names, plate_definition, UserConfig};
pub use wells::{compose_well_id, row_well_id, WellHistograms};
