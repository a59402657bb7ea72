# pathmap

A library of byte-keyed tries and the pieces around them, written in Verus: the
functions in `src/` carry contracts that Verus proves, but for three small trusted wrappers
of std (`u64::count_ones`, `u128::trailing_ones`, `Rc::clone`).

- `utils`: 256-bit byte masks (sets of bytes) and their operations.
- `bytetrie`: a byte-keyed trie map whose nodes live in an arena, with its node iterator and
  the start of a map iterator.
- `dense_byte_node`, `trie_map`: a dense 256-slot trie node with shared children, and a map
  over such nodes that lists its entries in key order.
- `range_generator`: builds, in a shared-subtrie form, the trie of every big-endian number of an
  arithmetic progression, and proves which keys it holds and in what order.
- `limited_heap`: a bounded collection that keeps the best entries seen.
- `zipper`, `overlay`, `track_path`, `experimental`: the zipper interfaces, a zipper over two
  tries at once, a wrapper that records the path of a zipper, and a zipper over the trie that
  holds every path.
- `ptr_upgrade`: a block allocator of node chunks with an occupancy mask per block, and the
  nodes written to the chunks, tagged by kind.
- `bytize`: keys made of the little-endian bytes of a `u64`, and back.
- `tree_serialization`: the byte record of a trie node.
- `json`: JSON renderings of the shape of a trie (nested objects, and a name/children
  hierarchy).
- `draw`: the commands that draw the tries of up to three maps, physically (every node, coloured
  by the maps that share it) or logically (branch points, values and shared nodes only).
- `timed_span`, `viz`: span counters and drawing settings.

The public proof functions whose names start with `law_` state the properties that hold across
calls (what a read gives back of a write, what an undo restores, what stays fresh).

`app/` holds what Verus does not see: the counter table behind a lock, reading the cycle
counter, printing, and the writing of the Graphviz and Mermaid text: it hands `draw` a graph
of the trie nodes named by their addresses, so that shared nodes are drawn once.
