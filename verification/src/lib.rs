//! Discovery and merging of `compile_commands.json` fragments.
//!
//! A multi-module source tree leaves one compilation-database fragment per
//! module: a file named `compile_commands.json` holding a JSON array. This
//! crate provides the verified core of a tool that finds every such fragment
//! under a set of root directories and splices their array interiors into one
//! combined top-level JSON array, by byte-level scanning and without parsing
//! the elements themselves.

use vstd::prelude::*;

pub mod interior;
pub mod laws;
pub mod merge;
pub mod walk;

pub use interior::extract_interior;
pub use laws::{lemma_discovery_order_irrelevant, lemma_fragment_appears_in_output,
    lemma_interior_appears_in_output, lemma_merge_order_irrelevant};
pub use merge::{merge_all, Merger};
pub use walk::{classify_entry, concat_bytes, is_target_name, target_name_bytes, walk_tree, EntryAction, FsNode};

verus! {

/// The byte that opens a JSON array.
pub const OPEN_BRACKET: u8 = 91;

/// The byte that closes a JSON array.
pub const CLOSE_BRACKET: u8 = 93;

/// The byte that separates two array elements.
pub const COMMA: u8 = 44;

} // verus!
