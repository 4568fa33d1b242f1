//! Shallow parsing of `.laplace` and `.stan` sources.
pub mod brace_match;
pub mod library_block;
pub mod signatures;
