//! Line-by-line text reversal by grapheme cluster, over a stream that
//! concatenates several byte sources.

pub mod lines;
pub mod reader;
pub mod reverse;
