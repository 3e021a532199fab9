//! Runtime support for a small compiled language: tagged machine words, a
//! word-addressed heap of vectors, a conservative stack scanner and a
//! mark-and-compact collector, all over bounds-checked buffers.

pub mod value;
pub mod heap;
pub mod roots;
pub mod collector;
pub mod text;
pub mod printer;
pub mod entry;
pub mod laws;
