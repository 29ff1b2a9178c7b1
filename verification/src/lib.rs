//! A fixed-capacity gap buffer for UTF-8 text, intended as the leaf storage
//! of a rope: byte storage split in two segments around a movable gap, with
//! an incrementally maintained count of the line breaks in the left segment,
//! together with the segmentation routines that cut long texts into leaves.

pub mod gap_buffer;
pub mod gap_slice;
pub mod segmenter;
pub mod summary;
pub mod text;

pub use gap_buffer::GapBuffer;
pub use gap_slice::GapSlice;
pub use segmenter::Resegmenter;
pub use segmenter::Segmenter;
pub use summary::ChunkSummary;

pub use text::adjust_split_point;
pub use text::count_line_breaks;
pub use text::last_byte_is_newline;
pub use text::split_adjusted;
