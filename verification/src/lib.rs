//! A balanced-tree index over the chunks of a text buffer.
//!
//! The tree tracks aggregate size metrics (byte count, character count)
//! for each chunk of an externally owned buffer, without storing the
//! characters themselves. It answers "which chunk holds byte offset `k`?"
//! and keeps running totals current as the buffer is edited, in time
//! logarithmic in the number of chunks.

pub mod chunking;
pub mod metrics;
pub mod node;
pub mod rope;
