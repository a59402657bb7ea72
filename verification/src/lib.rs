use vstd::prelude::*;

pub mod utils;
pub mod bytetrie;
pub mod limited_heap;
pub mod zipper;
pub mod track_path;
pub mod experimental;
pub mod overlay;
pub mod dense_byte_node;
pub mod range_generator;
pub mod trie_map;
pub mod ptr_upgrade;
pub mod timed_span;
pub mod bytize;
pub mod viz;
pub mod tree_serialization;
pub mod json;
pub mod draw;

verus! {
} // verus!
