//! Incremental source database for shader-language tooling.
//!
//! The crate turns raw file text, a table of named imports, and a set of
//! active conditional-compilation defines into parse results and auxiliary
//! data, on demand and with memoization: a mutation of an input invalidates
//! exactly the cached results that read it, and a later query recomputes
//! lazily through the preprocessor, the import resolver, and the parser.

use vstd::prelude::*;

pub mod db;
pub mod inputs;
pub mod line_index;
pub mod resolver;
pub mod shader_processor;
pub mod tree;
pub mod util_types;

pub use db::SourceDatabase;
pub use shader_processor::UnconfiguredCode;
pub use util_types::FileId;
pub use util_types::TextRange;

verus! {

/// Cheap view of a value as one of its component interfaces; consumers that
/// aggregate several databases implement this to hand out the source layer.
pub trait Upcast<T> {
    fn upcast(&self) -> &T;
}

} // verus!
