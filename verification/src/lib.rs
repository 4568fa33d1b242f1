//! Packages, namespaces and doc lookup for Stan.
//!
//! A `.laplace` source imports packages in a `library { ... }` block and calls their
//! functions as `package::function(...)`. The library compiles such a source into plain
//! Stan (`parser`, `codegen`), resolves, locks and installs the packages it needs
//! (`manifest`, `resolve`), and answers questions about their documentation (`docs`).
//! What it promises as a whole stands in `laws`.
use vstd::prelude::*;

pub mod cli;
pub mod codegen;
pub mod docs;
pub mod files;
pub mod init;
pub mod laws;
pub mod manifest;
pub mod order;
pub mod parser;
pub mod paths;
pub mod resolve;
pub mod text;
pub mod validate;

verus! {

} // verus!
