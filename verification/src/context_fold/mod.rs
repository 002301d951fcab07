//! Lossless context folding: fold strategies, placeholder markers and a
//! cross-session token tally.

pub mod accumulator;
pub mod fold;
pub mod fold_block;
pub mod marker;
pub mod semantic;

pub use accumulator::{approx_tokens, AccumulatorSnapshot, TokenAccumulator};
pub use fold::{fold, unfold, FoldError, FoldResult, FoldStrategy};
pub use fold_block::{has_fold_markers, parse_fold_blocks, render_selected, FoldBlock, FoldBlockRender};
pub use marker::{FoldMarker, MarkerKind};
