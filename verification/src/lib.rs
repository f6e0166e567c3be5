//! A batch inverted-index builder.
//!
//! Documents are tokenized into lowercase alphanumeric terms and folded into
//! mergeable in-memory indexes ([`index::InMemoryIndex`]). Once an accumulator
//! grows large it is encoded as an immutable binary segment
//! ([`write::IndexFileWriter`]), and many segments are folded into a single
//! final one by a bounded fan-in leveled merge ([`merge::FileMerge`],
//! [`merge::merge_stream`]). The crate holds the data model, the segment
//! codec and the merge logic; reading documents, creating the segment files
//! and renaming the final output are left to the caller.

pub mod ascii;
pub mod format;
pub mod gap_buffer;
pub mod index;
pub mod merge;
pub mod order;
pub mod read;
pub mod run;
pub mod text;
pub mod tmp;
pub mod tree;
pub mod write;
