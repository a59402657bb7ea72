//! Settings and colours for drawing a graph of tries.

use vstd::prelude::*;

verus! {

/// Configuration settings for rendering a graph of a trie.
pub struct DrawConfig {
    /// If `true`, render path substrings as ascii, otherwise render them as strings of
    /// byte-sized numbers
    pub ascii: bool,
    /// If `true`, skips rendering of the paths that terminate in values, otherwise renders
    /// all paths in the trie
    pub hide_value_paths: bool,
    /// If `true`, skips rendering values, but still renders paths leading to values unless
    /// `hide_value_paths` is also `true`
    pub minimize_values: bool,
    /// If `true`, renders the trie irrespective of the physical (in-memory) representation,
    /// otherwise also renders the nodes that comprise the layout of the trie structure
    pub logical: bool,
}

impl Default for DrawConfig {
    /// Numbers rather than ascii, every path and value drawn, the logical structure.
    fn default() -> (r: Self)
        ensures
            !r.ascii,
            !r.hide_value_paths,
            !r.minimize_values,
            r.logical,
    {
        Self { ascii: false, hide_value_paths: false, minimize_values: false, logical: true }
    }
}

/// The colour of a node shared by the maps whose bits are set in `mask` (of at most three maps).
pub open spec fn bitmask_color(mask: u64) -> Seq<char> {
    if mask == 0b000 {
        "black"@
    } else if mask == 0b100 {
        "red"@
    } else if mask == 0b010 {
        "green"@
    } else if mask == 0b001 {
        "blue"@
    } else if mask == 0b011 {
        "#0aa"@
    } else if mask == 0b101 {
        "#a0a"@
    } else if mask == 0b110 {
        "#aa0"@
    } else {
        "gray"@
    }
}

/// The colour of a node shared by the maps whose bits are set in `mask`: one colour for each
/// set of at most three maps.
pub fn color_for_bitmask(mask: u64) -> (r: &'static str)
    requires
        mask <= 0b111,
    ensures
        r@ == bitmask_color(mask),
{
    match mask {
        0b000 => "black",
        0b100 => "red",
        0b010 => "green",
        0b001 => "blue",
        0b011 => "#0aa",
        0b101 => "#a0a",
        0b110 => "#aa0",
        _ => "gray",
    }
}

} // verus!
