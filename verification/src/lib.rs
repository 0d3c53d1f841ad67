//! A verified serializer for Sublime Text `.sublime-syntax` definitions.
use vstd::prelude::*;

pub mod arena;
pub mod cli;
pub mod codegen;
pub mod serializer;
pub mod sublime_syntax;
pub mod text;
pub mod util;

verus! {
}
