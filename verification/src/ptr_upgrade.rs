//! An allocator of node chunks, handed out from blocks of `CHUNKS_PER_BLOCK` chunks.
//!
//! The blocks live in an arena and are named by their index in it.  Each block records the
//! occupancy of its chunks in a bit mask, and the blocks that may still have free chunks form a
//! circular list linked through `prev` and `next`, whose last element is `last_free`.

use vstd::prelude::*;

verus! {

/// The number of chunks of a block.
pub const CHUNKS_PER_BLOCK: usize = 84;

/// The number of blocks recorded in one group of `Trie::blocks`.
pub const BLOCKS_IN_VEC: usize = 512;

/// The occupancy of a new block: every bit from `CHUNKS_PER_BLOCK` up is set, so that only the
/// chunks of the block can be free.
pub const INIT_OCCUPANCY: u128 = 0xffff_ffff_fff0_0000_0000_0000_0000_0000u128;

/// Whether bit `i` of `occ` is set.
pub open spec fn occupied(occ: u128, i: u32) -> bool {
    (occ >> i) & 1 == 1
}

/// Every chunk of a block with occupancy `occ` is taken.
pub open spec fn block_full(occ: u128) -> bool {
    forall|j: u32| j < CHUNKS_PER_BLOCK ==> #[trigger] occupied(occ, j)
}

/// Chunk `c` is the lowest free chunk of a block with occupancy `occ`.
pub open spec fn lowest_free(occ: u128, c: nat) -> bool {
    &&& c < CHUNKS_PER_BLOCK
    &&& !occupied(occ, c as u32)
    &&& forall|j: u32| j < c ==> #[trigger] occupied(occ, j)
}

/// The number of trailing one bits of `x`: `u128::trailing_ones`.
///
/// Trusted: std documents it as the number of trailing ones in the binary representation, so
/// every bit below the result is set and, when the result is below 128, the bit at the result
/// is clear.
#[verifier::external_body]
fn trailing_ones_u128(x: u128) -> (r: u32)
    ensures
        r <= 128,
        forall|j: u32| j < r ==> #[trigger] occupied(x, j),
        r < 128 ==> !occupied(x, r),
{
    x.trailing_ones()
}

/// The location of a node: a block and a chunk of it.
#[derive(Clone, Copy, PartialEq, Eq, Structural)]
pub struct NodePtr {
    pub block: usize,
    pub chunk: usize,
}

/// A counted reference to a node: its location, and the tag of the kind of node stored there
/// (0 before any node is written).
pub struct NodePtrArc {
    pub tagged_ptr: NodePtr,
    pub tag: usize,
}

/// A one-byte reference to a payload of a node.
#[derive(Clone, Copy)]
pub struct PayloadRef(pub u8);

/// A byte node with few children.
#[derive(Clone, Copy)]
pub struct ByteUnsaturated {
    pub common_header: u8,
    pub val_or_child_bitfield: [u8; 3],
    pub prefix_path: [u8; 4],
    pub payloads: [PayloadRef; 24],
    pub child_mask: [u64; 4],
}

/// The head of a byte node with many children.
#[derive(Clone, Copy)]
pub struct ByteSaturatedHead {
    pub common_header: u8,
    pub val_or_child_bitfield: [u8; 3],
    pub prefix_path: [u8; 4],
    pub payloads: [PayloadRef; 24],
    pub child_mask: [u64; 4],
}

/// A continuation of a byte node with many children.
#[derive(Clone, Copy)]
pub struct ByteSaturatedBody {
    pub payloads: [NodePtr; 15],
    pub metadata: u16,
}

/// A node holding one straight path.
#[derive(Clone, Copy)]
pub struct StraightPath {
    pub common_header: u8,
    pub payload: PayloadRef,
    pub data: [u8; 30],
}

/// A node holding a small tree as a LOUDS bit string.
#[derive(Clone, Copy)]
pub struct LoudsChunk {
    pub common_header: u8,
    pub endpoints_table: [PayloadRef; 8],
    pub louds_bit_string: u32,
    pub path_bytes: [u8; 19],
}

/// A node of one of the kinds that a chunk can hold.
#[derive(Clone, Copy)]
pub enum NodeRef {
    ByteUnsaturated(ByteUnsaturated),
    ByteSaturatedHead(ByteSaturatedHead),
    ByteSaturatedBody(ByteSaturatedBody),
    StraightPath(StraightPath),
    LoudsChunk(LoudsChunk),
}

/// The tag of a node of kind `ByteUnsaturated`.
pub const UNSATURATED: usize = 1;
/// The tag of a node of kind `ByteSaturatedHead`.
pub const SATURATED_HEAD: usize = 2;
/// The tag of a node of kind `ByteSaturatedBody`.
pub const SATURATED_BODY: usize = 3;
/// The tag of a node of kind `StraightPath`.
pub const STRAIGHT_PATH: usize = 4;
/// The tag of a node of kind `LoudsChunk`.
pub const LOUDS_CHUNK: usize = 5;

/// The tag of the kind of `node`.
pub open spec fn kind_tag(node: NodeRef) -> usize {
    match node {
        NodeRef::ByteUnsaturated(_) => UNSATURATED,
        NodeRef::ByteSaturatedHead(_) => SATURATED_HEAD,
        NodeRef::ByteSaturatedBody(_) => SATURATED_BODY,
        NodeRef::StraightPath(_) => STRAIGHT_PATH,
        NodeRef::LoudsChunk(_) => LOUDS_CHUNK,
    }
}

/// Each kind of node has its own tag: a node is of a kind exactly when its tag is that kind's
/// constant, so two nodes get one tag only when they are of one kind.
pub proof fn law_tag_names_kind(a: NodeRef, b: NodeRef)
    ensures
        (a is ByteUnsaturated) == (kind_tag(a) == UNSATURATED),
        (a is ByteSaturatedHead) == (kind_tag(a) == SATURATED_HEAD),
        (a is ByteSaturatedBody) == (kind_tag(a) == SATURATED_BODY),
        (a is StraightPath) == (kind_tag(a) == STRAIGHT_PATH),
        (a is LoudsChunk) == (kind_tag(a) == LOUDS_CHUNK),
        1 <= kind_tag(a) <= 5,
        kind_tag(a) == kind_tag(b) <==> (
            (a is ByteUnsaturated && b is ByteUnsaturated) || (a is ByteSaturatedHead && b is ByteSaturatedHead)
            || (a is ByteSaturatedBody && b is ByteSaturatedBody) || (a is StraightPath && b is StraightPath)
            || (a is LoudsChunk && b is LoudsChunk)),
{
}

/// The index of the chunk `p` in the table of all chunks, block by block.
pub open spec fn chunk_index(p: NodePtr) -> int {
    p.block * CHUNKS_PER_BLOCK + p.chunk
}

/// A chunk of one of the first `n` blocks has an index below `CHUNKS_PER_BLOCK * n`, and two
/// chunks with one index are the same chunk.
proof fn lemma_chunk_index(p: NodePtr, q: NodePtr, n: nat)
    requires
        p.block < n,
        p.chunk < CHUNKS_PER_BLOCK,
        q.chunk < CHUNKS_PER_BLOCK,
    ensures
        0 <= chunk_index(p) < CHUNKS_PER_BLOCK * n,
        chunk_index(p) == chunk_index(q) ==> p == q,
{
    assert(0 <= chunk_index(p) < CHUNKS_PER_BLOCK * n) by (nonlinear_arith)
        requires
            p.block < n,
            p.chunk < 84,
            chunk_index(p) == p.block * 84 + p.chunk,
            CHUNKS_PER_BLOCK == 84,
    ;
    if chunk_index(p) == chunk_index(q) {
        assert(p.block == q.block) by (nonlinear_arith)
            requires
                p.block * 84 + p.chunk == q.block * 84 + q.chunk,
                p.chunk < 84,
                q.chunk < 84,
        ;
    }
}

/// Appends one empty chunk slot per chunk of a block.
fn push_empty_chunks(v: &mut Vec<Option<NodeRef>>)
    ensures
        final(v)@ == old(v)@ + Seq::new(CHUNKS_PER_BLOCK as nat, |i: int| None::<NodeRef>),
{
    let mut i: usize = 0;
    while i < CHUNKS_PER_BLOCK
        invariant
            i <= CHUNKS_PER_BLOCK,
            v@ == old(v)@ + Seq::new(i as nat, |j: int| None::<NodeRef>),
        decreases CHUNKS_PER_BLOCK - i,
    {
        v.push(None);
        i += 1;
        assert(v@ =~= old(v)@ + Seq::new(i as nat, |j: int| None::<NodeRef>));
    }
}

/// A block of chunks: its neighbours in the list of blocks that may have free chunks, and one
/// occupancy bit per chunk.
#[derive(Clone, Copy)]
pub struct NodeBlock {
    pub prev: usize,
    pub next: usize,
    pub occupancy: u128,
}

/// The blocks of an arena name blocks of the arena.
pub open spec fn links_wf(arena: Seq<NodeBlock>) -> bool {
    forall|i: int| 0 <= i < arena.len() ==> (#[trigger] arena[i]).prev < arena.len() && arena[i].next < arena.len()
}

impl NodeBlock {
    /// Makes `node` a list of its own.
    pub fn init(arena: &mut Vec<NodeBlock>, node: usize)
        requires
            node < old(arena)@.len(),
        ensures
            final(arena)@ == old(arena)@.update(node as int, NodeBlock { prev: node, next: node, ..old(arena)@[node as int] }),
    {
        let b = arena[node];
        arena.set(node, NodeBlock { prev: node, next: node, ..b });
    }

    /// Links `node` after `prev`: `node` takes `prev` as its predecessor and `prev`'s successor
    /// as its successor, and becomes `prev`'s successor.
    pub fn insert_after(arena: &mut Vec<NodeBlock>, prev: usize, node: usize)
        requires
            prev < old(arena)@.len(),
            node < old(arena)@.len(),
        ensures
            final(arena)@.len() == old(arena)@.len(),
            final(arena)@[node as int] == (NodeBlock {
                prev: prev,
                next: if node == prev { node } else { old(arena)@[prev as int].next },
                ..old(arena)@[node as int]
            }),
            prev != node ==> final(arena)@[prev as int] == (NodeBlock { next: node, ..old(arena)@[prev as int] }),
            forall|i: int| 0 <= i < old(arena)@.len() && i != prev && i != node ==> #[trigger] final(arena)@[i] == old(arena)@[i],
    {
        let b = arena[node];
        arena.set(node, NodeBlock { prev, ..b });
        let pn = arena[prev].next;
        let b = arena[node];
        arena.set(node, NodeBlock { next: pn, ..b });
        let p = arena[prev];
        arena.set(prev, NodeBlock { next: node, ..p });
    }

    /// Unlinks `node` from its list, joining its neighbours; returns `false`, changing nothing,
    /// when `node` is its own predecessor.
    pub fn remove(arena: &mut Vec<NodeBlock>, node: usize) -> (r: bool)
        requires
            node < old(arena)@.len(),
            links_wf(old(arena)@),
        ensures
            r == (old(arena)@[node as int].prev != node),
            !r ==> final(arena)@ == old(arena)@,
            r ==> {
                let prev = old(arena)@[node as int].prev;
                let next = old(arena)@[node as int].next;
                let mid = old(arena)@.update(prev as int, NodeBlock { next: next, ..old(arena)@[prev as int] });
                final(arena)@ == mid.update(next as int, NodeBlock { prev: prev, ..mid[next as int] })
            },
    {
        let prev = arena[node].prev;
        if prev == node {
            return false;
        }
        let next = arena[node].next;
        let p = arena[prev];
        arena.set(prev, NodeBlock { next, ..p });
        let n = arena[next];
        arena.set(next, NodeBlock { prev, ..n });
        true
    }

    /// Moves `node` to just after `prev`, unless `node` is its own predecessor.
    pub fn move_after(arena: &mut Vec<NodeBlock>, prev: usize, node: usize)
        requires
            prev < old(arena)@.len(),
            node < old(arena)@.len(),
            links_wf(old(arena)@),
        ensures
            final(arena)@.len() == old(arena)@.len(),
            old(arena)@[node as int].prev == node ==> final(arena)@ == old(arena)@,
            old(arena)@[node as int].prev != node ==> final(arena)@[node as int].prev == prev,
            old(arena)@[node as int].prev != node && prev != node ==> final(arena)@[prev as int].next == node,
    {
        if !Self::remove(arena, node) {
            return;
        }
        Self::insert_after(arena, prev, node);
    }

    /// The location of chunk `index` of `block`.
    pub fn nth_node(block: usize, index: usize) -> (r: NodePtr)
        requires
            index < CHUNKS_PER_BLOCK,
        ensures
            r == (NodePtr { block, chunk: index }),
    {
        NodePtr { block, chunk: index }
    }
}

/// The chunks that are handed out: those whose occupancy bit is set.
pub open spec fn allocated(arena: Seq<NodeBlock>) -> Set<NodePtr> {
    Set::new(|p: NodePtr| p.block < arena.len() && p.chunk < CHUNKS_PER_BLOCK
        && occupied(arena[p.block as int].occupancy, p.chunk as u32))
}

/// An allocator of node chunks.
pub struct Trie {
    blocks: Vec<Vec<usize>>,
    arena: Vec<NodeBlock>,
    nodes: Vec<Option<NodeRef>>,
    last_free: usize,
    root: Option<NodePtr>,
}

impl Trie {
    /// The arena holds at least one block, the links name blocks of the arena, and `blocks`
    /// records the blocks of the arena in order, in full groups of `BLOCKS_IN_VEC` but the last.
    pub closed spec fn wf(self) -> bool {
        &&& self.arena@.len() > 0
        &&& self.last_free < self.arena@.len()
        &&& links_wf(self.arena@)
        &&& self.blocks@.len() > 0
        &&& forall|g: int| 0 <= g < self.blocks@.len() ==> (#[trigger] self.blocks@[g])@.len() <= BLOCKS_IN_VEC
        &&& forall|g: int| 0 <= g < self.blocks@.len() - 1 ==> (#[trigger] self.blocks@[g])@.len() == BLOCKS_IN_VEC
        &&& forall|g: int, i: int| 0 <= g < self.blocks@.len() && 0 <= i < self.blocks@[g]@.len()
            ==> #[trigger] self.blocks@[g]@[i] == BLOCKS_IN_VEC * g + i
        &&& self.arena@.len() == BLOCKS_IN_VEC * (self.blocks@.len() - 1) + self.blocks@.last()@.len()
        &&& self.nodes@.len() == CHUNKS_PER_BLOCK * self.arena@.len()
    }

    /// The node written to chunk `p`, if any.
    pub closed spec fn node_at(self, p: NodePtr) -> Option<NodeRef> {
        self.nodes@[chunk_index(p)]
    }

    /// The chunks handed out so far.
    pub closed spec fn chunks(self) -> Set<NodePtr> {
        allocated(self.arena@)
    }

    /// The number of blocks.
    pub closed spec fn block_count(self) -> nat {
        self.arena@.len()
    }

    /// The block from which the next chunk is taken.
    pub closed spec fn free_block(self) -> nat {
        self.last_free as nat
    }

    /// The occupancy mask of block `b`.
    pub closed spec fn occupancy_of(self, b: nat) -> u128 {
        self.arena@[b as int].occupancy
    }

    /// The predecessor of block `b` in the list of blocks with free chunks.
    pub closed spec fn prev_of(self, b: nat) -> nat {
        self.arena@[b as int].prev as nat
    }

    /// An allocator with one empty block and no chunk handed out.
    pub fn new() -> (r: Self)
        ensures
            r.wf(),
            r.chunks() == Set::<NodePtr>::empty(),
            r.block_count() == 1,
            forall|p: NodePtr| p.block < r.block_count() && p.chunk < CHUNKS_PER_BLOCK ==> #[trigger] r.node_at(p) is None,
    {
        let mut arena: Vec<NodeBlock> = Vec::new();
        arena.push(NodeBlock { prev: 0, next: 0, occupancy: 0 });
        let first_block: usize = 0;
        NodeBlock::init(&mut arena, first_block);
        let mut first_vec: Vec<usize> = Vec::with_capacity(BLOCKS_IN_VEC);
        first_vec.push(first_block);
        let mut blocks: Vec<Vec<usize>> = Vec::new();
        blocks.push(first_vec);
        let mut nodes: Vec<Option<NodeRef>> = Vec::new();
        push_empty_chunks(&mut nodes);
        let r = Trie { blocks, arena, nodes, last_free: first_block, root: None };
        proof {
            assert forall|p: NodePtr| !r.chunks().contains(p) by {
                let c = p.chunk as u32;
                if p.block == 0 && p.chunk < CHUNKS_PER_BLOCK {
                    assert((0u128 >> c) & 1 == 0) by (bit_vector);
                }
            }
            assert(r.chunks() =~= Set::empty());
        }
        r
    }

    /// Adds a new block, with only its own chunks free, to the arena and to the list of blocks
    /// with free chunks, after `last_free`, and makes it `last_free`.
    fn alloc_block(&mut self) -> (r: usize)
        requires
            old(self).wf(),
            old(self).arena@.len() < usize::MAX,
        ensures
            final(self).wf(),
            r == old(self).arena@.len(),
            final(self).last_free == r,
            final(self).arena@.len() == old(self).arena@.len() + 1,
            final(self).arena@[r as int].occupancy == INIT_OCCUPANCY,
            forall|i: int| 0 <= i < old(self).arena@.len() ==> #[trigger] final(self).arena@[i].occupancy == old(self).arena@[i].occupancy,
            final(self).root == old(self).root,
            final(self).arena@[r as int].prev == old(self).last_free,
            final(self).arena@[r as int].next == old(self).arena@[old(self).last_free as int].next,
            final(self).arena@[old(self).last_free as int] == (NodeBlock { next: r, ..old(self).arena@[old(self).last_free as int] }),
            forall|i: int| 0 <= i < old(self).arena@.len() && i != old(self).last_free ==> #[trigger] final(self).arena@[i] == old(self).arena@[i],
            old(self).blocks@.last()@.len() < BLOCKS_IN_VEC ==> final(self).blocks@.len() == old(self).blocks@.len()
                && final(self).blocks@.last()@ == old(self).blocks@.last()@.push(r),
            old(self).blocks@.last()@.len() >= BLOCKS_IN_VEC ==> final(self).blocks@.len() == old(self).blocks@.len() + 1
                && final(self).blocks@.last()@ == seq![r],
            forall|g: int| 0 <= g < old(self).blocks@.len() - 1 ==> #[trigger] final(self).blocks@[g] == old(self).blocks@[g],
            final(self).nodes@ == old(self).nodes@ + Seq::new(CHUNKS_PER_BLOCK as nat, |i: int| None::<NodeRef>),
    {
        push_empty_chunks(&mut self.nodes);
        let last = self.blocks.len() - 1;
        if self.blocks[last].len() >= BLOCKS_IN_VEC {
            self.blocks.push(Vec::with_capacity(BLOCKS_IN_VEC));
        }
        let ptr = self.arena.len();
        self.arena.push(NodeBlock { prev: 0, next: 0, occupancy: 0 });
        let b = self.arena[ptr];
        self.arena.set(ptr, NodeBlock { occupancy: INIT_OCCUPANCY, ..b });
        NodeBlock::insert_after(&mut self.arena, self.last_free, ptr);
        self.last_free = ptr;
        let g = self.blocks.len() - 1;
        let mut group: Vec<usize> = Vec::new();
        std::mem::swap(&mut group, &mut self.blocks[g]);
        group.push(ptr);
        self.blocks.set(g, group);
        proof {
            let a = self.arena@;
            assert forall|i: int| 0 <= i < a.len() implies (#[trigger] a[i]).prev < a.len() && a[i].next < a.len() by {
                if i < old(self).arena@.len() && i != ptr {
                    assert(old(self).arena@[i].prev < old(self).arena@.len());
                }
            }
            assert forall|g2: int, i: int| 0 <= g2 < self.blocks@.len() && 0 <= i < self.blocks@[g2]@.len()
                implies #[trigger] self.blocks@[g2]@[i] == BLOCKS_IN_VEC * g2 + i by {
                if g2 < old(self).blocks@.len() && i < old(self).blocks@[g2]@.len() {
                    assert(self.blocks@[g2]@[i] == old(self).blocks@[g2]@[i]);
                }
            }
        }
        ptr
    }

    /// Shifts each occupancy bit one place down into its neighbour: a chunk counts as taken when
    /// it or the next one is, for nodes that take two chunks.
    fn extend_occupancy_2(occupancy: u128) -> (r: u128)
        ensures
            forall|i: u32| i < 127 ==> (#[trigger] occupied(r, i) <==> occupied(occupancy, i) || occupied(occupancy, (i + 1) as u32)),
    {
        let r = occupancy | occupancy >> 1u32;
        assert forall|i: u32| i < 127 implies (#[trigger] occupied(r, i) <==> occupied(occupancy, i) || occupied(occupancy, (i + 1) as u32)) by {
            assert(i < 127 ==> ((((occupancy | (occupancy >> 1u32)) >> i) & 1 == 1)
                <==> ((occupancy >> i) & 1 == 1 || (occupancy >> ((i + 1) as u32)) & 1 == 1))) by (bit_vector);
        }
        r
    }

    /// Spreads each occupancy bit over the three places below it: a chunk counts as taken when
    /// any of it and the next three is, for nodes that take four chunks.
    fn extend_occupancy_4(occupancy: u128) -> (r: u128)
        ensures
            forall|i: u32| i < 125 ==> (#[trigger] occupied(r, i) <==> occupied(occupancy, i) || occupied(occupancy, (i + 1) as u32)
                || occupied(occupancy, (i + 2) as u32) || occupied(occupancy, (i + 3) as u32)),
    {
        let mut occupancy = occupancy;
        let ghost o = occupancy;
        occupancy = occupancy | occupancy >> 1u32;
        let r = occupancy | occupancy >> 2u32;
        assert forall|i: u32| i < 125 implies (#[trigger] occupied(r, i) <==> occupied(o, i) || occupied(o, (i + 1) as u32)
            || occupied(o, (i + 2) as u32) || occupied(o, (i + 3) as u32)) by {
            assert(i < 125 ==> ((((o | (o >> 1u32)) | ((o | (o >> 1u32)) >> 2u32)) >> i) & 1 == 1
                <==> ((o >> i) & 1 == 1 || (o >> ((i + 1) as u32)) & 1 == 1
                    || (o >> ((i + 2) as u32)) & 1 == 1 || (o >> ((i + 3) as u32)) & 1 == 1))) by (bit_vector);
        }
        r
    }

    /// Hands out a free chunk, taken from `last_free`, or from a new block when `last_free` is
    /// full; a block that fills up leaves `last_free` to its predecessor.
    fn alloc_node(&mut self) -> (r: NodePtr)
        requires
            old(self).wf(),
            old(self).arena@.len() < usize::MAX,
        ensures
            final(self).wf(),
            !old(self).chunks().contains(r),
            final(self).chunks() == old(self).chunks().insert(r),
            r.block < final(self).arena@.len(),
            r.chunk < CHUNKS_PER_BLOCK,
            final(self).root == old(self).root,
            final(self).arena@.len() >= old(self).arena@.len(),
            forall|i: int| 0 <= i < old(self).nodes@.len() ==> #[trigger] final(self).nodes@[i] == old(self).nodes@[i],
            forall|i: int| old(self).nodes@.len() <= i < final(self).nodes@.len() ==> #[trigger] final(self).nodes@[i] is None,
            !block_full(old(self).occupancy_of(old(self).free_block())) ==> {
                &&& r.block == old(self).free_block()
                &&& lowest_free(old(self).occupancy_of(old(self).free_block()), r.chunk as nat)
                &&& final(self).arena@.len() == old(self).arena@.len()
                &&& final(self).free_block() == if block_full(final(self).occupancy_of(r.block as nat)) {
                    old(self).prev_of(old(self).free_block())
                } else {
                    old(self).free_block()
                }
            },
            block_full(old(self).occupancy_of(old(self).free_block())) ==> {
                &&& r.block == old(self).block_count()
                &&& r.chunk == 0
                &&& final(self).arena@.len() == old(self).arena@.len() + 1
                &&& final(self).free_block() == r.block
            },
    {
        let mut block = self.last_free;
        let mut occupancy = self.arena[block].occupancy;
        let first = trailing_ones_u128(occupancy);
        let fresh = first >= 84;
        if fresh {
            block = self.alloc_block();
            proof {
                assert forall|j: u32| j < 84 implies !occupied(INIT_OCCUPANCY, j) by {
                    assert(j < 84 ==> (0xffff_ffff_fff0_0000_0000_0000_0000_0000u128 >> j) & 1 != 1) by (bit_vector);
                }
            }
        }
        let ghost mid = self.arena@;
        proof {
            assert(allocated(mid) =~= allocated(old(self).arena@)) by {
                assert forall|p: NodePtr| allocated(mid).contains(p) == allocated(old(self).arena@).contains(p) by {
                    if p.block == mid.len() - 1 && p.block >= old(self).arena@.len() && p.chunk < CHUNKS_PER_BLOCK {
                        assert(!occupied(INIT_OCCUPANCY, p.chunk as u32));
                    }
                }
            }
        }
        occupancy = self.arena[block].occupancy;
        let index = trailing_ones_u128(occupancy);
        proof {
            if fresh {
                if index > 0 {
                    assert(occupied(occupancy, 0));
                    assert(!occupied(INIT_OCCUPANCY, 0));
                }
            } else {
                if index > first {
                    assert(occupied(occupancy, first));
                }
                if index < first {
                    assert(occupied(occupancy, index));
                }
            }
        }
        let ptr = NodeBlock::nth_node(block, index as usize);
        occupancy = occupancy | (1u128 << index);
        let b = self.arena[block];
        self.arena.set(block, NodeBlock { occupancy, ..b });
        proof {
            let o = mid[block as int].occupancy;
            assert forall|j: u32| j < 128 implies (#[trigger] occupied(occupancy, j) <==> (j == index || occupied(o, j))) by {
                assert(j < 128 && index < 128 ==> ((((o | (1u128 << index)) >> j) & 1 == 1)
                    <==> (j == index || (o >> j) & 1 == 1))) by (bit_vector);
            }
            assert(allocated(self.arena@) =~= allocated(mid).insert(ptr)) by {
                assert forall|p: NodePtr| allocated(self.arena@).contains(p) == allocated(mid).insert(ptr).contains(p) by {
                    if p.block == block && p.chunk < CHUNKS_PER_BLOCK {
                        assert(occupied(occupancy, p.chunk as u32) <==> (p.chunk as u32 == index || occupied(o, p.chunk as u32)));
                    }
                }
            }
        }
        let full = trailing_ones_u128(occupancy) >= 84;
        proof {
            if fresh {
                assert(!occupied(occupancy, 1));
            }
            if !full {
                assert(!block_full(occupancy));
            }
        }
        if full {
            let prev = self.arena[self.last_free].prev;
            self.last_free = prev;
        }
        ptr
    }

    /// Hands out a free chunk for a new node and returns a reference to it; the chunk was free
    /// before and is taken afterwards, and no other chunk changes.
    pub fn insert_node(&mut self) -> (r: NodePtrArc)
        requires
            old(self).wf(),
            old(self).block_count() < usize::MAX,
        ensures
            final(self).wf(),
            !old(self).chunks().contains(r.tagged_ptr),
            final(self).chunks() == old(self).chunks().insert(r.tagged_ptr),
            r.tagged_ptr.chunk < CHUNKS_PER_BLOCK,
            r.tagged_ptr.block < final(self).block_count(),
            r.tag == 0,
            forall|p: NodePtr| p.block < old(self).block_count() && p.chunk < CHUNKS_PER_BLOCK
                ==> #[trigger] final(self).node_at(p) == old(self).node_at(p),
            forall|p: NodePtr| old(self).block_count() <= p.block < final(self).block_count() && p.chunk < CHUNKS_PER_BLOCK
                ==> #[trigger] final(self).node_at(p) is None,
            !block_full(old(self).occupancy_of(old(self).free_block())) ==> {
                &&& r.tagged_ptr.block == old(self).free_block()
                &&& lowest_free(old(self).occupancy_of(old(self).free_block()), r.tagged_ptr.chunk as nat)
                &&& final(self).block_count() == old(self).block_count()
                &&& final(self).free_block() == if block_full(final(self).occupancy_of(r.tagged_ptr.block as nat)) {
                    old(self).prev_of(old(self).free_block())
                } else {
                    old(self).free_block()
                }
            },
            block_full(old(self).occupancy_of(old(self).free_block())) ==> {
                &&& r.tagged_ptr.block == old(self).block_count()
                &&& r.tagged_ptr.chunk == 0
                &&& final(self).block_count() == old(self).block_count() + 1
                &&& final(self).free_block() == r.tagged_ptr.block
            },
    {
        let ghost n0 = old(self).block_count();
        let ptr = self.alloc_node();
        proof {
            assert forall|p: NodePtr| p.block < old(self).block_count() && p.chunk < CHUNKS_PER_BLOCK
                implies #[trigger] self.node_at(p) == old(self).node_at(p) by {
                lemma_chunk_index(p, p, old(self).block_count());
            }
            assert forall|p: NodePtr| old(self).block_count() <= p.block < self.block_count() && p.chunk < CHUNKS_PER_BLOCK
                implies #[trigger] self.node_at(p) is None by {
                lemma_chunk_index(p, p, self.block_count());
                assert(chunk_index(p) >= CHUNKS_PER_BLOCK * n0) by (nonlinear_arith)
                    requires
                        p.block >= n0,
                        chunk_index(p) == p.block * CHUNKS_PER_BLOCK + p.chunk,
                        p.chunk >= 0,
                ;
            }
        }
        NodePtrArc { tagged_ptr: ptr, tag: 0 }
    }
}

impl NodePtrArc {
    /// Writes `node` into the chunk of this reference, in `store`, and returns the reference
    /// with the same location tagged with the kind of `node`.  No other chunk changes, nor which
    /// chunks are handed out.
    pub fn write(self, store: &mut Trie, node: NodeRef) -> (r: Self)
        requires
            old(store).wf(),
            self.tagged_ptr.block < old(store).block_count(),
            self.tagged_ptr.chunk < CHUNKS_PER_BLOCK,
        ensures
            final(store).wf(),
            r.tagged_ptr == self.tagged_ptr,
            r.tag == kind_tag(node),
            node is ByteUnsaturated ==> r.tag == UNSATURATED,
            node is ByteSaturatedHead ==> r.tag == SATURATED_HEAD,
            node is ByteSaturatedBody ==> r.tag == SATURATED_BODY,
            node is StraightPath ==> r.tag == STRAIGHT_PATH,
            node is LoudsChunk ==> r.tag == LOUDS_CHUNK,
            final(store).node_at(r.tagged_ptr) == Some(node),
            forall|p: NodePtr| p.block < old(store).block_count() && p.chunk < CHUNKS_PER_BLOCK && p != self.tagged_ptr
                ==> #[trigger] final(store).node_at(p) == old(store).node_at(p),
            final(store).chunks() == old(store).chunks(),
            final(store).block_count() == old(store).block_count(),
            final(store).free_block() == old(store).free_block(),
            forall|b: nat| b < old(store).block_count() ==> #[trigger] final(store).prev_of(b) == old(store).prev_of(b)
                && final(store).occupancy_of(b) == old(store).occupancy_of(b),
    {
        let ptr = self.tagged_ptr;
        proof {
            lemma_chunk_index(ptr, ptr, store.block_count());
        }
        let total = store.nodes.len();
        assert(chunk_index(ptr) < total);
        let index = ptr.block * CHUNKS_PER_BLOCK + ptr.chunk;
        let tag = match node {
            NodeRef::ByteUnsaturated(_) => UNSATURATED,
            NodeRef::ByteSaturatedHead(_) => SATURATED_HEAD,
            NodeRef::ByteSaturatedBody(_) => SATURATED_BODY,
            NodeRef::StraightPath(_) => STRAIGHT_PATH,
            NodeRef::LoudsChunk(_) => LOUDS_CHUNK,
        };
        store.nodes.set(index, Some(node));
        proof {
            assert forall|p: NodePtr| p.block < old(store).block_count() && p.chunk < CHUNKS_PER_BLOCK && p != ptr
                implies #[trigger] store.node_at(p) == old(store).node_at(p) by {
                lemma_chunk_index(p, ptr, old(store).block_count());
            }
        }
        NodePtrArc { tagged_ptr: ptr, tag }
    }

    /// The node stored at this reference's chunk in `store`, which must be the one last written
    /// through a reference with this tag.
    pub fn get<'a>(&self, store: &'a Trie) -> (r: &'a NodeRef)
        requires
            store.wf(),
            self.tagged_ptr.block < store.block_count(),
            self.tagged_ptr.chunk < CHUNKS_PER_BLOCK,
            store.node_at(self.tagged_ptr) matches Some(n) && kind_tag(n) == self.tag,
        ensures
            Some(*r) == store.node_at(self.tagged_ptr),
            kind_tag(*r) == self.tag,
    {
        let ptr = self.tagged_ptr;
        proof {
            lemma_chunk_index(ptr, ptr, store.block_count());
        }
        let total = store.nodes.len();
        assert(chunk_index(ptr) < total);
        let index = ptr.block * CHUNKS_PER_BLOCK + ptr.chunk;
        store.nodes[index].as_ref().unwrap()
    }
}

/// Two chunks handed out one after the other differ, and neither was handed out before: each
/// call of `insert_node` takes a chunk that is free and adds just that chunk to those handed out.
pub proof fn law_insert_node_fresh(c0: Set<NodePtr>, r1: NodePtr, c1: Set<NodePtr>, r2: NodePtr, c2: Set<NodePtr>)
    requires
        !c0.contains(r1),
        c1 == c0.insert(r1),
        !c1.contains(r2),
        c2 == c1.insert(r2),
    ensures
        r1 != r2,
        !c0.contains(r2),
        c2 == c0.insert(r1).insert(r2),
        c2.contains(r1) && c2.contains(r2),
{
}

/// Chunks handed out one after another by `insert_node` are all different, none of them was
/// handed out before the first call, and all of them are handed out after the last: when each
/// call takes a chunk that is free and adds just that chunk to those handed out.
pub proof fn law_insert_nodes_distinct(cs: Seq<Set<NodePtr>>, rs: Seq<NodePtr>)
    requires
        cs.len() == rs.len() + 1,
        forall|i: int| 0 <= i < rs.len() ==> !cs[i].contains(#[trigger] rs[i]) && cs[i + 1] == cs[i].insert(rs[i]),
    ensures
        forall|i: int, j: int| 0 <= i < j < rs.len() ==> rs[i] != rs[j],
        forall|i: int| 0 <= i < rs.len() ==> !cs[0].contains(#[trigger] rs[i]),
        forall|i: int| 0 <= i < rs.len() ==> cs[rs.len() as int].contains(#[trigger] rs[i]),
        cs[rs.len() as int] == cs[0] + rs.to_set(),
    decreases rs.len(),
{
    if rs.len() > 0 {
        let n = rs.len() - 1;
        let cs0 = cs.drop_last();
        let rs0 = rs.drop_last();
        assert forall|i: int| 0 <= i < rs0.len() implies !cs0[i].contains(#[trigger] rs0[i]) && cs0[i + 1] == cs0[i].insert(rs0[i]) by {
            assert(!cs[i].contains(rs[i]) && cs[i + 1] == cs[i].insert(rs[i]));
        }
        law_insert_nodes_distinct(cs0, rs0);
        assert(cs0[n as int] == cs[n as int]);
        assert(!cs[n as int].contains(rs[n as int]) && cs[n + 1] == cs[n as int].insert(rs[n as int]));
        assert forall|i: int, j: int| 0 <= i < j < rs.len() implies rs[i] != rs[j] by {
            if j == n {
                assert(cs0[n as int].contains(rs0[i]));
            } else {
                assert(rs0[i] != rs0[j]);
            }
        }
        assert forall|i: int| 0 <= i < rs.len() implies !cs[0].contains(#[trigger] rs[i]) by {
            if i == n {
                assert(cs[0].subset_of(cs[n as int])) by {
                    assert(cs0[n as int] == cs0[0] + rs0.to_set());
                }
            } else {
                assert(!cs0[0].contains(rs0[i]));
            }
        }
        assert(rs.to_set() =~= rs0.to_set().insert(rs[n as int])) by {
            assert forall|x: NodePtr| rs.to_set().contains(x) == rs0.to_set().insert(rs[n as int]).contains(x) by {
                if rs.to_set().contains(x) {
                    let k = choose|k: int| 0 <= k < rs.len() && rs[k] == x;
                    if k < n {
                        assert(rs0[k] == x);
                    }
                }
                if rs0.to_set().contains(x) {
                    let k = choose|k: int| 0 <= k < rs0.len() && rs0[k] == x;
                    assert(rs[k] == x);
                }
            }
        }
        assert(cs[rs.len() as int] =~= cs[0] + rs.to_set());
        assert forall|i: int| 0 <= i < rs.len() implies cs[rs.len() as int].contains(#[trigger] rs[i]) by {
            assert(rs.to_set().contains(rs[i]));
        }
    } else {
        assert(rs.to_set() =~= Set::<NodePtr>::empty());
        assert(cs[0] + rs.to_set() =~= cs[0]);
    }
}

} // verus!
