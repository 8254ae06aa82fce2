//! A reader for EBML, the tagged, length-prefixed binary tree format under
//! Matroska: a variable-length integer codec and an element-tree walker over a
//! seekable byte source.

pub mod error;
pub mod source;
pub mod vint;
pub mod stream;
pub mod matroska;
