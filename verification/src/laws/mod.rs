//! What holds of the library as a whole: laws that relate several of its functions, stated
//! over the models that their contracts use.
pub mod blocks;
pub mod building;
pub mod calling;
pub mod choosing;
pub mod comments;
pub mod compiling;
pub mod documenting;
pub mod headers;
pub mod importing;
pub mod installing;
pub mod joining;
pub mod loading;
pub mod messages;
pub mod output;
pub mod pages;
pub mod parsing;
pub mod renaming;
pub mod reporting;
pub mod resolving;
pub mod starting;
pub mod texts;
