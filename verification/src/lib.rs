//! Span-tracked decoding of a tagged binary tree format, and removal of one
//! node's bytes from the buffer it was decoded from.

pub mod tag;
pub mod bytes;
pub mod decode;
pub mod navigate;
pub mod patch;
pub mod rank;
pub mod laws;
