//! Compaction checkpoints: surface replacement over an append-only transcript.
//!
//! A compaction records one [`stream::CompactionCheckpoint`] in an
//! append-only log; the original messages are never deleted. Deriving the
//! provider view folds the log: each checkpoint's span is replaced by its
//! summary, everything else survives verbatim, and the same log always folds
//! to the same view. Every checkpoint write is bracketed by a marker pair
//! (`start -> checkpoint -> end`); an unclosed pair is reported and never
//! applied. [`select`] picks the span (tail retained, cut tool-pair-safe),
//! [`summary`] fixes the template and accepts or refuses a summary.

pub mod engine;
pub mod select;
pub mod stream;
pub mod summary;

pub use select::{compaction_due, pair_safe_end, select_compaction_range, CompactionRange};
pub use stream::{
    detect_unclosed_compactions, fold_checkpoints, render_transcript, CompactionCheckpoint, CompactionLogEntry,
    CompactionMessage, CompactionRole, FoldedView, ViewSegment,
};
