//! File names, and paths by their parts.
//!
//! Platforms differ in how they write and join paths. So a path is given by its parts here: the
//! names that are joined, one after the other, to a directory that the caller knows.
use vstd::prelude::*;

use crate::text::{deep, split_at_last, split_last};

verus! {

/// The path of `name` below `dir`.
pub fn two_parts(dir: &str, name: &str) -> (r: Vec<String>)
    ensures
        deep(r@) == seq![dir@, name@],
{
    let mut parts: Vec<String> = Vec::new();
    parts.push(dir.to_string());
    parts.push(name.to_string());
    assert(deep(parts@) =~= seq![dir@, name@]);
    parts
}

/// A file name behind its last dot, where it has one that is not at its start.
pub open spec fn name_extension(name: Seq<char>) -> Option<Seq<char>> {
    match split_last(name, '.') {
        Some((stem, extension)) => if stem.len() > 0 {
            Some(extension)
        } else {
            None
        },
        None => None,
    }
}

/// A file name behind its last dot, where it has one that is not at its start.
pub fn extension(name: &str) -> (r: Option<String>)
    ensures
        r.deep_view() == name_extension(name@),
{
    match split_at_last(name, '.') {
        Some((stem, extension)) => if stem.as_str().is_empty() {
            None
        } else {
            Some(extension)
        },
        None => None,
    }
}

} // verus!
