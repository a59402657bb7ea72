//! A byte-keyed trie map.
//!
//! Every node holds two 256-slot tables: `rvalues` (child nodes) and `vvalues`
//! (values), each indexed directly by the key byte and paired with a byte mask
//! that records which slots are occupied.  The nodes of one trie live in an
//! arena (`Vec`), and a child is named by its index in that arena; the root is
//! node 0, which is never the child of any node.

use vstd::prelude::*;
use vstd::std_specs::bits::axiom_u64_trailing_zeros;
use crate::utils::{
    bit, mask_has, mask_view, mask_count_below, mask_len, byte_mask_contains, byte_mask_set,
    byte_mask_clear, byte_mask_left, count_ones, bits_below, words_full, lemma_bits_below_bound,
    lemma_mask_count_split,
};

verus! {

/// The slot table `values` agrees with `mask`: slot `b` is filled exactly when `b` is in the mask.
pub open spec fn slots_wf<T>(mask: [u64; 4], values: Seq<Option<T>>) -> bool {
    &&& values.len() == 256
    &&& forall|b: u8|
        #![trigger mask_has(mask, b)]
        #![trigger values[b as int]]
        mask_has(mask, b) <==> values[b as int] is Some
}

/// The contents after storing `v` under `k` unless `k` already has a value.
pub open spec fn insert_result<V>(m: Map<Seq<u8>, V>, k: Seq<u8>, v: V) -> Map<Seq<u8>, V> {
    if m.contains_key(k) {
        m
    } else {
        m.insert(k, v)
    }
}

/// After an insert, the key has a value: the value it had, or else the inserted one; every
/// other key keeps what it had.
pub proof fn law_get_after_insert<V>(m: Map<Seq<u8>, V>, k: Seq<u8>, v: V, other: Seq<u8>)
    ensures
        insert_result(m, k, v).contains_key(k),
        insert_result(m, k, v)[k] == if m.contains_key(k) { m[k] } else { v },
        other != k ==> insert_result(m, k, v).contains_key(other) == m.contains_key(other),
        other != k && m.contains_key(other) ==> insert_result(m, k, v)[other] == m[other],
{
}

/// Inserting under a key that already has a value changes nothing: a second insert under the
/// same key keeps the first value.
pub proof fn law_insert_keeps_first<V>(m: Map<Seq<u8>, V>, k: Seq<u8>, v1: V, v2: V)
    ensures
        insert_result(insert_result(m, k, v1), k, v2) == insert_result(m, k, v1),
{
}

/// A child slot and a value slot of one byte of a node.
pub struct CoFree<V> {
    pub rec: Option<usize>,
    pub value: Option<V>,
}

/// Operations on a byte mask and the 256-slot table that it indexes.
pub struct Utils {}

impl Utils {
    /// Adds `k` to the mask, returning whether it was already there.
    pub fn contains_set(mask: &mut [u64; 4], k: u8) -> (r: bool)
        ensures
            r == mask_has(*old(mask), k),
            mask_view(*final(mask)) == mask_view(*old(mask)).insert(k),
    {
        let r = byte_mask_contains(*mask, k);
        byte_mask_set(mask, k);
        r
    }

    /// Whether `k` is in the mask.
    pub fn contains(mask: &[u64; 4], k: u8) -> (r: bool)
        ensures
            r == mask_has(*mask, k),
    {
        byte_mask_contains(*mask, k)
    }

    /// Number of bytes in the mask smaller than `pos`.
    pub fn left(mask: &[u64; 4], pos: u8) -> (r: u8)
        ensures
            r == mask_count_below(*mask, pos as nat),
    {
        byte_mask_left(*mask, pos)
    }

    /// Number of bytes in the mask.
    pub fn len(mask: &[u64; 4]) -> (r: usize)
        ensures
            r == mask_len(*mask),
    {
        proof {
            lemma_bits_below_bound(mask[0], 64);
            lemma_bits_below_bound(mask[1], 64);
            lemma_bits_below_bound(mask[2], 64);
            lemma_bits_below_bound(mask[3], 64);
            lemma_mask_count_split(*mask, 3, 64);
            assert(64 * 3 + 64 == 256);
            reveal_with_fuel(words_full, 4);
        }
        (count_ones(mask[0]) + count_ones(mask[1]) + count_ones(mask[2]) + count_ones(mask[3])) as usize
    }

    /// Adds `k` to the mask.
    pub fn set(mask: &mut [u64; 4], k: u8)
        ensures
            mask_view(*final(mask)) == mask_view(*old(mask)).insert(k),
    {
        byte_mask_set(mask, k)
    }

    /// Removes `k` from the mask.
    pub fn clear(mask: &mut [u64; 4], k: u8)
        ensures
            mask_view(*final(mask)) == mask_view(*old(mask)).remove(k),
    {
        byte_mask_clear(mask, k)
    }

    /// Stores `v` in slot `k` unless the slot is already filled; returns whether it was filled.
    /// A filled slot keeps its value.
    pub fn insert<V>(mask: &mut [u64; 4], values: &mut Vec<Option<V>>, k: u8, v: V) -> (r: bool)
        requires
            slots_wf(*old(mask), old(values)@),
        ensures
            r == mask_has(*old(mask), k),
            slots_wf(*final(mask), final(values)@),
            mask_view(*final(mask)) == mask_view(*old(mask)).insert(k),
            r ==> final(values)@ == old(values)@,
            !r ==> final(values)@ == old(values)@.update(k as int, Some(v)),
    {
        let ghost om = *mask;
        if Self::contains_set(mask, k) {
            proof {
                assert forall|b: u8| mask_has(*mask, b) <==> values@[b as int] is Some by {
                    assert(mask_view(*mask).contains(b) == mask_view(om).insert(k).contains(b));
                }
            }
            true
        } else {
            values.set(k as usize, Some(v));
            proof {
                assert forall|b: u8| mask_has(*mask, b) <==> values@[b as int] is Some by {
                    assert(mask_view(*mask).contains(b) == mask_view(om).insert(k).contains(b));
                }
            }
            false
        }
    }

    /// Returns the value in slot `k`, first filling the slot with `default()` if it is empty.
    pub fn update<'a, V, F: FnOnce() -> V>(mask: &mut [u64; 4], values: &'a mut Vec<Option<V>>, k: u8, default: F) -> (r: &'a mut V)
        requires
            slots_wf(*old(mask), old(values)@),
            !mask_has(*old(mask), k) ==> default.requires(()),
        ensures
            mask_view(*final(mask)) == mask_view(*old(mask)).insert(k),
            slots_wf(*final(mask), final(values)@),
            final(values)@ == old(values)@.update(k as int, Some(*final(r))),
            mask_has(*old(mask), k) ==> *r == old(values)@[k as int].unwrap(),
            !mask_has(*old(mask), k) ==> default.ensures((), *r),
    {
        let ghost om = *mask;
        if !Self::contains_set(mask, k) {
            let d = default();
            values.set(k as usize, Some(d));
        }
        proof {
            assert forall|b: u8| mask_has(*mask, b) <==> values@[b as int] is Some by {
                assert(mask_view(*mask).contains(b) == mask_view(om).insert(k).contains(b));
            }
        }
        values[k as usize].as_mut().unwrap()
    }

    /// The value in slot `k`, if the slot is filled.
    pub fn get<'a, V>(mask: &[u64; 4], values: &'a Vec<Option<V>>, k: u8) -> (r: Option<&'a V>)
        requires
            slots_wf(*mask, values@),
        ensures
            r == match values@[k as int] {
                Some(x) => Some(&x),
                None => None::<&V>,
            },
    {
        if Self::contains(mask, k) {
            return values[k as usize].as_ref();
        }
        None
    }
}


/// One node of the trie.
pub(crate) struct ByteTrieNode<V> {
    rmask: [u64; 4],
    rvalues: Vec<Option<usize>>,
    vmask: [u64; 4],
    vvalues: Vec<Option<V>>,
}

/// The child reached from node `n` by byte `b`.
pub(crate) closed spec fn child_of<V>(nodes: Seq<ByteTrieNode<V>>, n: int, b: u8) -> Option<int> {
    match nodes[n].rvalues@[b as int] {
        Some(c) => Some(c as int),
        None => None,
    }
}

/// The node reached from the root by following the bytes of `p`.
pub(crate) closed spec fn reach<V>(nodes: Seq<ByteTrieNode<V>>, p: Seq<u8>) -> Option<int>
    decreases p.len(),
{
    if p.len() == 0 {
        Some(0)
    } else {
        match reach(nodes, p.drop_last()) {
            Some(m) => child_of(nodes, m, p.last()),
            None => None,
        }
    }
}

/// The value stored under `key` (keys are non-empty).
pub(crate) closed spec fn lookup<V>(nodes: Seq<ByteTrieNode<V>>, key: Seq<u8>) -> Option<V> {
    if key.len() == 0 {
        None
    } else {
        match reach(nodes, key.drop_last()) {
            Some(m) => nodes[m].vvalues@[key.last() as int],
            None => None,
        }
    }
}

/// Well-formedness of one node: both slot tables agree with their masks,
/// and every child lies after its parent in the arena.
pub(crate) closed spec fn node_wf<V>(nodes: Seq<ByteTrieNode<V>>, n: int) -> bool {
    &&& slots_wf(nodes[n].rmask, nodes[n].rvalues@)
    &&& slots_wf(nodes[n].vmask, nodes[n].vvalues@)
    &&& forall|b: u8| #[trigger] child_of(nodes, n, b) matches Some(c) ==> n < c < nodes.len()
}

/// Well-formedness of the arena: the root exists, every node is well formed,
/// and no node is the child of two slots (the arena is a tree).
pub(crate) closed spec fn arena_wf<V>(nodes: Seq<ByteTrieNode<V>>) -> bool {
    &&& nodes.len() >= 1
    &&& forall|n: int| 0 <= n < nodes.len() ==> #[trigger] node_wf(nodes, n)
    &&& forall|n1: int, b1: u8, n2: int, b2: u8|
        0 <= n1 < nodes.len() && 0 <= n2 < nodes.len()
            && (#[trigger] child_of(nodes, n1, b1)) is Some
            && child_of(nodes, n1, b1) == #[trigger] child_of(nodes, n2, b2)
            ==> n1 == n2 && b1 == b2
}

proof fn lemma_reach_range<V>(nodes: Seq<ByteTrieNode<V>>, p: Seq<u8>)
    requires
        arena_wf(nodes),
    ensures
        reach(nodes, p) matches Some(m) ==> 0 <= m < nodes.len(),
        p.len() > 0 && reach(nodes, p) is Some ==> reach(nodes, p) != Some(0int),
    decreases p.len(),
{
    if p.len() > 0 {
        lemma_reach_range(nodes, p.drop_last());
        if let Some(m) = reach(nodes, p.drop_last()) {
            assert(node_wf(nodes, m));
            assert(child_of(nodes, m, p.last()) matches Some(c) ==> m < c < nodes.len());
        }
    }
}

/// Two paths that reach the same node are equal.
proof fn lemma_reach_unique<V>(nodes: Seq<ByteTrieNode<V>>, p1: Seq<u8>, p2: Seq<u8>)
    requires
        arena_wf(nodes),
        reach(nodes, p1) is Some,
        reach(nodes, p1) == reach(nodes, p2),
    ensures
        p1 == p2,
    decreases p1.len() + p2.len(),
{
    lemma_reach_range(nodes, p1);
    lemma_reach_range(nodes, p2);
    if p1.len() == 0 && p2.len() == 0 {
        assert(p1 =~= p2);
    } else if p1.len() > 0 && p2.len() > 0 {
        let m1 = reach(nodes, p1.drop_last()).unwrap();
        let m2 = reach(nodes, p2.drop_last()).unwrap();
        lemma_reach_range(nodes, p1.drop_last());
        lemma_reach_range(nodes, p2.drop_last());
        assert(child_of(nodes, m1, p1.last()) == child_of(nodes, m2, p2.last()));
        lemma_reach_unique(nodes, p1.drop_last(), p2.drop_last());
        assert(p1 =~= p1.drop_last().push(p1.last()));
        assert(p2 =~= p2.drop_last().push(p2.last()));
    }
}

proof fn lemma_reach_push<V>(nodes: Seq<ByteTrieNode<V>>, p: Seq<u8>, b: u8)
    ensures
        reach(nodes, p.push(b)) == match reach(nodes, p) {
            Some(m) => child_of(nodes, m, b),
            None => None,
        },
{
    assert(p.push(b).drop_last() =~= p);
}


/// Growing the arena by one empty child `c` of node `n` at byte `b` keeps every path that
/// existed, and every path that reaches an old node already existed.
proof fn lemma_reach_grow<V>(
    old_nodes: Seq<ByteTrieNode<V>>,
    new_nodes: Seq<ByteTrieNode<V>>,
    n: int,
    b: u8,
    q: Seq<u8>,
)
    requires
        arena_wf(old_nodes),
        0 <= n < old_nodes.len(),
        new_nodes.len() == old_nodes.len() + 1,
        child_of(old_nodes, n, b) is None,
        child_of(new_nodes, n, b) == Some(old_nodes.len() as int),
        forall|b2: u8| child_of(new_nodes, old_nodes.len() as int, b2) is None,
        forall|m: int, b2: u8|
            0 <= m < old_nodes.len() && (m != n || b2 != b) ==> #[trigger] child_of(new_nodes, m, b2)
                == child_of(old_nodes, m, b2),
    ensures
        reach(old_nodes, q) is Some ==> reach(new_nodes, q) == reach(old_nodes, q),
        reach(new_nodes, q) is Some && reach(new_nodes, q).unwrap() != old_nodes.len() ==> reach(old_nodes, q) == reach(new_nodes, q),
    decreases q.len(),
{
    lemma_reach_range(old_nodes, q);
    if q.len() > 0 {
        let q0 = q.drop_last();
        lemma_reach_grow(old_nodes, new_nodes, n, b, q0);
        lemma_reach_range(old_nodes, q0);
        if let Some(m0) = reach(old_nodes, q0) {
            if m0 == n && q.last() == b {
            } else {
                assert(child_of(new_nodes, m0, q.last()) == child_of(old_nodes, m0, q.last()));
            }
        }
        if let Some(m0) = reach(new_nodes, q0) {
            if m0 != old_nodes.len() {
                assert(reach(old_nodes, q0) == Some(m0));
                if m0 == n && q.last() == b {
                } else {
                    assert(child_of(new_nodes, m0, q.last()) == child_of(old_nodes, m0, q.last()));
                }
            }
        }
    }
}

/// Changing only value slots leaves every path where it was.
proof fn lemma_reach_same_children<V>(
    old_nodes: Seq<ByteTrieNode<V>>,
    new_nodes: Seq<ByteTrieNode<V>>,
    q: Seq<u8>,
)
    requires
        new_nodes.len() == old_nodes.len(),
        forall|m: int| 0 <= m < old_nodes.len() ==> #[trigger] new_nodes[m].rvalues@ == old_nodes[m].rvalues@,
        arena_wf(old_nodes),
    ensures
        reach(new_nodes, q) == reach(old_nodes, q),
    decreases q.len(),
{
    if q.len() > 0 {
        lemma_reach_same_children(old_nodes, new_nodes, q.drop_last());
        lemma_reach_range(old_nodes, q.drop_last());
        if let Some(m0) = reach(old_nodes, q.drop_last()) {
            assert(new_nodes[m0].rvalues@ == old_nodes[m0].rvalues@);
        }
    }
}


impl<V> ByteTrieNode<V> {
    /// A node with no children and no values.
    fn empty() -> (r: Self)
        ensures
            slots_wf(r.rmask, r.rvalues@),
            slots_wf(r.vmask, r.vvalues@),
            forall|i: int| 0 <= i < 256 ==> (#[trigger] r.rvalues@[i]) is None,
            forall|i: int| 0 <= i < 256 ==> (#[trigger] r.vvalues@[i]) is None,
    {
        let mut rvalues: Vec<Option<usize>> = Vec::new();
        let mut vvalues: Vec<Option<V>> = Vec::new();
        let mut i: usize = 0;
        while i < 256
            invariant
                i <= 256,
                rvalues@.len() == i,
                vvalues@.len() == i,
                forall|j: int| 0 <= j < i ==> (#[trigger] rvalues@[j]) is None,
                forall|j: int| 0 <= j < i ==> (#[trigger] vvalues@[j]) is None,
            decreases 256 - i,
        {
            rvalues.push(None);
            vvalues.push(None);
            i += 1;
        }
        let r = ByteTrieNode { rmask: [0u64; 4], rvalues, vmask: [0u64; 4], vvalues };
        proof {
            assert forall|b: u8| !mask_has(r.rmask, b) && !mask_has(r.vmask, b) by {
                let w = (b / 64) as int;
                let t = (b % 64) as u64;
                assert(0u64 & (1u64 << t) == 0) by (bit_vector);
            }
        }
        r
    }
}

/// A trie map from non-empty byte strings to values.
///
/// The trie owns the arena of its nodes; the root is node 0.
pub struct ByteTrieNodePtr<V> {
    nodes: Vec<ByteTrieNode<V>>,
}

impl<V> View for ByteTrieNodePtr<V> {
    type V = Map<Seq<u8>, V>;

    closed spec fn view(&self) -> Map<Seq<u8>, V> {
        Map::new(|k: Seq<u8>| lookup(self.nodes@, k) is Some, |k: Seq<u8>| lookup(self.nodes@, k).unwrap())
    }
}

impl<V> ByteTrieNodePtr<V> {
    /// The trie's internal invariant.
    pub closed spec fn wf(&self) -> bool {
        arena_wf(self.nodes@)
    }

    proof fn lemma_view_key(&self, k: Seq<u8>)
        ensures
            self@.contains_key(k) == lookup(self.nodes@, k) is Some,
            self@.contains_key(k) ==> Some(self@[k]) == lookup(self.nodes@, k),
    {
    }

    /// An empty trie.
    pub fn new() -> (r: Self)
        ensures
            r.wf(),
            r@ == Map::<Seq<u8>, V>::empty(),
    {
        let mut nodes: Vec<ByteTrieNode<V>> = Vec::new();
        nodes.push(ByteTrieNode::empty());
        let r = ByteTrieNodePtr { nodes };
        proof {
            assert forall|n: int| 0 <= n < r.nodes@.len() implies #[trigger] node_wf(r.nodes@, n) by {
                assert forall|b: u8| #[trigger] child_of(r.nodes@, n, b) is None by {
                    assert(r.nodes@[n].rvalues@[b as int] is None);
                }
            }
            assert forall|k: Seq<u8>| lookup(r.nodes@, k) is None by {
                if k.len() > 0 {
                    lemma_reach_range(r.nodes@, k.drop_last());
                    if let Some(m) = reach(r.nodes@, k.drop_last()) {
                        assert(r.nodes@[m].vvalues@[k.last() as int] is None);
                    }
                }
            }
            assert(r@ =~= Map::<Seq<u8>, V>::empty());
        }
        r
    }

    /// Follows byte `b` from `node`, creating an empty child when there is none.
    fn step_or_create(&mut self, node: usize, b: u8, Ghost(p): Ghost<Seq<u8>>) -> (c: usize)
        requires
            old(self).wf(),
            reach(old(self).nodes@, p) == Some(node as int),
        ensures
            final(self).wf(),
            reach(final(self).nodes@, p.push(b)) == Some(c as int),
            forall|k: Seq<u8>| #[trigger] lookup(final(self).nodes@, k) == lookup(old(self).nodes@, k),
    {
        let ghost on = self.nodes@;
        proof {
            lemma_reach_range(on, p);
            lemma_reach_push(on, p, b);
            assert(node_wf(on, node as int));
        }
        if Utils::contains(&self.nodes[node].rmask, b) {
            let c = self.nodes[node].rvalues[b as usize].unwrap();
            c
        } else {
            let c = self.nodes.len();
            let e = ByteTrieNode::empty();
            self.nodes.push(e);
            let ghost mid = self.nodes@;
            let nd = &mut self.nodes[node];
            Utils::insert(&mut nd.rmask, &mut nd.rvalues, b, c);
            proof {
                let nn = self.nodes@;
                assert(nn.len() == on.len() + 1);
                assert(forall|m: int| 0 <= m < on.len() && m != node ==> #[trigger] nn[m] == on[m]);
                assert(nn[c as int] == e);
                assert(nn[node as int].vvalues@ == on[node as int].vvalues@);
                assert(nn[node as int].rvalues@ == on[node as int].rvalues@.update(b as int, Some(c)));
                assert(child_of(on, node as int, b) is None);
                assert forall|b2: u8| #[trigger] child_of(nn, c as int, b2) is None by {
                    assert(e.rvalues@[b2 as int] is None);
                }
                assert forall|m: int, b2: u8|
                    0 <= m < on.len() && (m != node || b2 != b) implies #[trigger] child_of(nn, m, b2)
                        == child_of(on, m, b2) by {
                    if m == node {
                        assert(nn[m].rvalues@[b2 as int] == on[m].rvalues@[b2 as int]);
                    }
                }
                assert forall|m: int| 0 <= m < nn.len() implies #[trigger] node_wf(nn, m) by {
                    if m < on.len() {
                        assert(node_wf(on, m));
                        assert forall|b2: u8| #[trigger] child_of(nn, m, b2) is Some implies m < child_of(nn, m, b2).unwrap() < nn.len() by {
                            if m == node && b2 == b {
                            } else {
                                assert(child_of(nn, m, b2) == child_of(on, m, b2));
                            }
                        }
                    } else {
                        assert(m == c);
                    }
                }
                assert forall|n1: int, b1: u8, n2: int, b2: u8|
                    0 <= n1 < nn.len() && 0 <= n2 < nn.len()
                        && (#[trigger] child_of(nn, n1, b1)) is Some
                        && child_of(nn, n1, b1) == #[trigger] child_of(nn, n2, b2)
                    implies n1 == n2 && b1 == b2 by {
                    let t = child_of(nn, n1, b1).unwrap();
                    if n1 == c as int || n2 == c as int {
                    } else if t == c {
                        if !(n1 == node && b1 == b) {
                            assert(child_of(nn, n1, b1) == child_of(on, n1, b1));
                            assert(node_wf(on, n1));
                        }
                        if !(n2 == node && b2 == b) {
                            assert(child_of(nn, n2, b2) == child_of(on, n2, b2));
                            assert(node_wf(on, n2));
                        }
                    } else {
                        assert(!(n1 == node && b1 == b));
                        assert(!(n2 == node && b2 == b));
                        assert(child_of(nn, n1, b1) == child_of(on, n1, b1));
                        assert(child_of(nn, n2, b2) == child_of(on, n2, b2));
                    }
                }
                assert(arena_wf(nn));
                lemma_reach_grow(on, nn, node as int, b, p);
                lemma_reach_push(nn, p, b);
                assert forall|k: Seq<u8>| #[trigger] lookup(nn, k) == lookup(on, k) by {
                    if k.len() > 0 {
                        let q = k.drop_last();
                        lemma_reach_grow(on, nn, node as int, b, q);
                        lemma_reach_range(on, q);
                        if let Some(m) = reach(nn, q) {
                            if m == c as int {
                                assert(e.vvalues@[k.last() as int] is None);
                            } else {
                                assert(nn[m].vvalues@ == on[m].vvalues@);
                            }
                        }
                    }
                }
            }
            c
        }
    }
}


impl<V> ByteTrieNodePtr<V> {
    /// Setting the value slot `b` of the node reached by `p` changes the value of the key
    /// `p + [b]` and of no other key.
    proof fn lemma_set_value(
        old_nodes: Seq<ByteTrieNode<V>>,
        new_nodes: Seq<ByteTrieNode<V>>,
        p: Seq<u8>,
        m: int,
        b: u8,
        v: Option<V>,
    )
        requires
            arena_wf(old_nodes),
            reach(old_nodes, p) == Some(m),
            0 <= m < old_nodes.len(),
            new_nodes.len() == old_nodes.len(),
            forall|j: int| 0 <= j < old_nodes.len() && j != m ==> #[trigger] new_nodes[j] == old_nodes[j],
            new_nodes[m].rvalues@ == old_nodes[m].rvalues@,
            new_nodes[m].vvalues@ == old_nodes[m].vvalues@.update(b as int, v),
        ensures
            forall|k: Seq<u8>| #[trigger] lookup(new_nodes, k) == if k == p.push(b) { v } else { lookup(old_nodes, k) },
    {
        assert forall|j: int| 0 <= j < old_nodes.len() implies #[trigger] new_nodes[j].rvalues@ == old_nodes[j].rvalues@ by {
            if j != m {
                assert(new_nodes[j] == old_nodes[j]);
            }
        }
        assert forall|k: Seq<u8>| #[trigger] lookup(new_nodes, k) == if k == p.push(b) { v } else { lookup(old_nodes, k) } by {
            Self::lemma_set_value_key(old_nodes, new_nodes, p, m, b, v, k);
        }
    }

    proof fn lemma_set_value_key(
        old_nodes: Seq<ByteTrieNode<V>>,
        new_nodes: Seq<ByteTrieNode<V>>,
        p: Seq<u8>,
        m: int,
        b: u8,
        v: Option<V>,
        k: Seq<u8>,
    )
        requires
            arena_wf(old_nodes),
            reach(old_nodes, p) == Some(m),
            0 <= m < old_nodes.len(),
            new_nodes.len() == old_nodes.len(),
            forall|j: int| 0 <= j < old_nodes.len() && j != m ==> #[trigger] new_nodes[j] == old_nodes[j],
            forall|j: int| 0 <= j < old_nodes.len() ==> #[trigger] new_nodes[j].rvalues@ == old_nodes[j].rvalues@,
            new_nodes[m].vvalues@ == old_nodes[m].vvalues@.update(b as int, v),
        ensures
            lookup(new_nodes, k) == if k == p.push(b) { v } else { lookup(old_nodes, k) },
    {
        assert(node_wf(old_nodes, m));
        if k.len() > 0 {
            let q = k.drop_last();
            lemma_reach_same_children(old_nodes, new_nodes, q);
            lemma_reach_range(old_nodes, q);
            assert(p.push(b).drop_last() =~= p);
            assert(k =~= q.push(k.last()));
            assert(reach(new_nodes, q) == reach(old_nodes, q));
            if k == p.push(b) {
                assert(q =~= p);
                assert(k.last() == b);
                assert(lookup(new_nodes, k) == new_nodes[m].vvalues@[b as int]);
            } else {
                if let Some(mq) = reach(old_nodes, q) {
                    assert(lookup(new_nodes, k) == new_nodes[mq].vvalues@[k.last() as int]);
                    assert(lookup(old_nodes, k) == old_nodes[mq].vvalues@[k.last() as int]);
                    if mq == m {
                        lemma_reach_unique(old_nodes, q, p);
                        assert(k.last() != b);
                    } else {
                        assert(new_nodes[mq] == old_nodes[mq]);
                    }
                }
            }
        } else {
            assert(k.len() != p.push(b).len());
        }
    }

    /// Walks the path `k[..k.len()-1]`, creating missing nodes; returns the node reached.
    fn walk_or_create(&mut self, k: &[u8]) -> (node: usize)
        requires
            old(self).wf(),
            k@.len() >= 1,
        ensures
            final(self).wf(),
            reach(final(self).nodes@, k@.drop_last()) == Some(node as int),
            forall|key: Seq<u8>| #[trigger] lookup(final(self).nodes@, key) == lookup(old(self).nodes@, key),
    {
        let mut node: usize = 0;
        let last = k.len() - 1;
        let mut i: usize = 0;
        assert(k@.take(0) =~= Seq::<u8>::empty());
        while i < last
            invariant
                self.wf(),
                i <= last,
                last == k@.len() - 1,
                reach(self.nodes@, k@.take(i as int)) == Some(node as int),
                forall|key: Seq<u8>| #[trigger] lookup(self.nodes@, key) == lookup(old(self).nodes@, key),
            decreases last - i,
        {
            let ghost pre = k@.take(i as int);
            node = self.step_or_create(node, k[i], Ghost(pre));
            assert(k@.take(i + 1) =~= pre.push(k@[i as int]));
            i += 1;
        }
        assert(k@.take(last as int) =~= k@.drop_last());
        node
    }

    /// Stores `v` under `k` unless `k` already has a value; returns whether it had one.
    /// An existing value is kept.
    pub fn insert(&mut self, k: &[u8], v: V) -> (r: bool)
        requires
            old(self).wf(),
            k@.len() >= 1,
        ensures
            final(self).wf(),
            r == old(self)@.contains_key(k@),
            final(self)@ == insert_result(old(self)@, k@, v),
    {
        let node = self.walk_or_create(k);
        let ghost mid = self.nodes@;
        let ghost p = k@.drop_last();
        let last = k.len() - 1;
        proof {
            lemma_reach_range(mid, p);
            assert(node_wf(mid, node as int));
            assert(p.push(k@[last as int]) =~= k@);
        }
        let nd = &mut self.nodes[node];
        let r = Utils::insert(&mut nd.vmask, &mut nd.vvalues, k[last], v);
        proof {
            let nn = self.nodes@;
            let b = k@[last as int];
            assert(mid[node as int].vvalues@[b as int] is Some == r);
            let nv = if r { mid[node as int].vvalues@[b as int] } else { Some(v) };
            assert(nn[node as int].vvalues@ =~= mid[node as int].vvalues@.update(b as int, nv));
            Self::lemma_set_value(mid, nn, p, node as int, b, nv);
            assert forall|n1: int, b1: u8| 0 <= n1 < nn.len() implies #[trigger] child_of(nn, n1, b1) == child_of(mid, n1, b1) by {
                if n1 != node {
                    assert(nn[n1] == mid[n1]);
                }
            }
            assert forall|m: int| 0 <= m < nn.len() implies #[trigger] node_wf(nn, m) by {
                assert(node_wf(mid, m));
                if m != node {
                    assert(nn[m] == mid[m]);
                } else {
                    assert forall|b2: u8| #[trigger] child_of(nn, m, b2) is Some implies m < child_of(nn, m, b2).unwrap() < nn.len() by {
                        assert(child_of(nn, m, b2) == child_of(mid, m, b2));
                    }
                }
            }
            assert(arena_wf(nn));
            self.lemma_view_key(k@);
            assert(lookup(mid, k@) == mid[node as int].vvalues@[b as int]);
            if r {
                assert(self@ =~= old(self)@) by {
                    assert forall|key: Seq<u8>| #[trigger] lookup(nn, key) == lookup(old(self).nodes@, key) by {
                        assert(lookup(mid, key) == lookup(old(self).nodes@, key));
                    }
                    self.lemma_view_key(k@);
                }
            } else {
                assert(self@ =~= old(self)@.insert(k@, v)) by {
                    assert forall|key: Seq<u8>| #[trigger] lookup(nn, key) == if key == k@ { Some(v) } else { lookup(old(self).nodes@, key) } by {
                        assert(lookup(mid, key) == lookup(old(self).nodes@, key));
                    }
                }
            }
        }
        r
    }
}


/// `nn` is `nodes` with only the value slot `b` of node `m` changed, now holding `x`.
pub(crate) closed spec fn value_slot_set<V>(
    nodes: Seq<ByteTrieNode<V>>,
    nn: Seq<ByteTrieNode<V>>,
    m: int,
    b: u8,
    x: V,
) -> bool {
    &&& nn.len() == nodes.len()
    &&& forall|j: int| 0 <= j < nodes.len() && j != m ==> #[trigger] nn[j] == nodes[j]
    &&& nn[m].rvalues@ == nodes[m].rvalues@
    &&& nn[m].rmask == nodes[m].rmask
    &&& slots_wf(nn[m].vmask, nn[m].vvalues@)
    &&& nn[m].vvalues@ == nodes[m].vvalues@.update(b as int, Some(x))
}

proof fn lemma_reach_prefix_none<V>(nodes: Seq<ByteTrieNode<V>>, s: Seq<u8>, j: int, n: int)
    requires
        0 <= j <= n <= s.len(),
        reach(nodes, s.take(j)) is None,
    ensures
        reach(nodes, s.take(n)) is None,
    decreases n - j,
{
    if j < n {
        assert(s.take(j + 1).drop_last() =~= s.take(j));
        lemma_reach_prefix_none(nodes, s, j + 1, n);
    }
}

impl<V> ByteTrieNodePtr<V> {
    proof fn lemma_slot_set_wf(mid: Seq<ByteTrieNode<V>>, nn: Seq<ByteTrieNode<V>>, node: int, b: u8, x: V, p: Seq<u8>)
        requires
            arena_wf(mid),
            reach(mid, p) == Some(node),
            value_slot_set(mid, nn, node, b, x),
        ensures
            arena_wf(nn),
            forall|key: Seq<u8>| #[trigger] lookup(nn, key) == if key == p.push(b) { Some(x) } else { lookup(mid, key) },
    {
        lemma_reach_range(mid, p);
        assert(node_wf(mid, node));
        Self::lemma_set_value(mid, nn, p, node, b, Some(x));
        assert forall|n1: int, b1: u8| 0 <= n1 < nn.len() implies #[trigger] child_of(nn, n1, b1) == child_of(mid, n1, b1) by {
            if n1 != node {
                assert(nn[n1] == mid[n1]);
            }
        }
        assert forall|m: int| 0 <= m < nn.len() implies #[trigger] node_wf(nn, m) by {
            assert(node_wf(mid, m));
            if m != node {
                assert(nn[m] == mid[m]);
            } else {
                assert forall|b2: u8| #[trigger] child_of(nn, m, b2) is Some implies m < child_of(nn, m, b2).unwrap() < nn.len() by {
                    assert(child_of(nn, m, b2) == child_of(mid, m, b2));
                }
            }
        }
    }

    /// The value under `k`, if any.
    pub fn get(&self, k: &[u8]) -> (r: Option<&V>)
        requires
            self.wf(),
            k@.len() >= 1,
        ensures
            r is Some == self@.contains_key(k@),
            r matches Some(v) ==> *v == self@[k@],
    {
        let mut node: usize = 0;
        let last = k.len() - 1;
        let mut i: usize = 0;
        assert(k@.take(0) =~= Seq::<u8>::empty());
        while i < last
            invariant
                self.wf(),
                i <= last,
                last == k@.len() - 1,
                reach(self.nodes@, k@.take(i as int)) == Some(node as int),
            decreases last - i,
        {
            proof {
                lemma_reach_range(self.nodes@, k@.take(i as int));
                assert(node_wf(self.nodes@, node as int));
                assert(k@.take(i + 1).drop_last() =~= k@.take(i as int));
            }
            match Utils::get(&self.nodes[node].rmask, &self.nodes[node].rvalues, k[i]) {
                Some(cf) => {
                    node = *cf;
                },
                None => {
                    proof {
                        lemma_reach_prefix_none(self.nodes@, k@, i + 1, last as int);
                        assert(k@.take(last as int) =~= k@.drop_last());
                        self.lemma_view_key(k@);
                    }
                    return None;
                },
            }
            i += 1;
        }
        proof {
            lemma_reach_range(self.nodes@, k@.take(i as int));
            assert(node_wf(self.nodes@, node as int));
            assert(k@.take(last as int) =~= k@.drop_last());
            self.lemma_view_key(k@);
        }
        Utils::get(&self.nodes[node].vmask, &self.nodes[node].vvalues, k[last])
    }

    /// Whether `k` has a value.
    pub fn contains(&self, k: &[u8]) -> (r: bool)
        requires
            self.wf(),
            k@.len() >= 1,
        ensures
            r == self@.contains_key(k@),
    {
        self.get(k).is_some()
    }

    /// The value under `k`, stored first as `default()` when `k` has none.
    pub fn update<F: FnOnce() -> V>(&mut self, k: &[u8], default: F) -> (r: &mut V)
        requires
            old(self).wf(),
            k@.len() >= 1,
            !old(self)@.contains_key(k@) ==> default.requires(()),
        ensures
            final(self).wf(),
            final(self)@ == old(self)@.insert(k@, *final(r)),
            old(self)@.contains_key(k@) ==> *r == old(self)@[k@],
            !old(self)@.contains_key(k@) ==> default.ensures((), *r),
    {
        let node = self.walk_or_create(k);
        let ghost mid = self.nodes@;
        let ghost p = k@.drop_last();
        let last = k.len() - 1;
        let ghost b = k@[last as int];
        proof {
            lemma_reach_range(mid, p);
            assert(node_wf(mid, node as int));
            assert(p.push(b) =~= k@);
            self.lemma_view_key(k@);
            assert(lookup(mid, k@) == mid[node as int].vvalues@[b as int]);
            assert forall|nn: Seq<ByteTrieNode<V>>, x: V| #[trigger] value_slot_set(mid, nn, node as int, b, x)
                implies arena_wf(nn) && forall|key: Seq<u8>| #[trigger] lookup(nn, key) == if key == k@ { Some(x) } else { lookup(old(self).nodes@, key) } by {
                Self::lemma_slot_set_wf(mid, nn, node as int, b, x, p);
                assert forall|key: Seq<u8>| #[trigger] lookup(nn, key) == if key == k@ { Some(x) } else { lookup(old(self).nodes@, key) } by {
                    assert(lookup(mid, key) == lookup(old(self).nodes@, key));
                }
            }
        }
        self.slot_update(node, k[last], default)
    }

    /// Fills the value slot `b` of `node` with `default()` if it is empty, and returns it.
    fn slot_update<F: FnOnce() -> V>(&mut self, node: usize, b: u8, default: F) -> (r: &mut V)
        requires
            node < old(self).nodes@.len(),
            node_wf(old(self).nodes@, node as int),
            old(self).nodes@[node as int].vvalues@[b as int] is None ==> default.requires(()),
        ensures
            value_slot_set(old(self).nodes@, final(self).nodes@, node as int, b, *final(r)),
            old(self).nodes@[node as int].vvalues@[b as int] matches Some(x) ==> *r == x,
            old(self).nodes@[node as int].vvalues@[b as int] is None ==> default.ensures((), *r),
    {
        let nd = &mut self.nodes[node];
        Utils::update(&mut nd.vmask, &mut nd.vvalues, b, default)
    }
}


/// The number of values held by node `n` and the nodes below it: the values of `n`, plus the
/// counts of all its children.
pub(crate) closed spec fn node_len<V>(nodes: Seq<ByteTrieNode<V>>, n: int) -> nat
    decreases nodes.len() - n, 257int,
{
    if 0 <= n < nodes.len() {
        mask_len(nodes[n].vmask) + slots_len(nodes, n, 256)
    } else {
        0
    }
}

/// The counts of the children of `n` held in child slots `0 .. j`.
pub(crate) closed spec fn slots_len<V>(nodes: Seq<ByteTrieNode<V>>, n: int, j: nat) -> nat
    decreases nodes.len() - n, j,
{
    if j == 0 || !(0 <= n < nodes.len()) || j > 256 {
        0
    } else {
        slots_len(nodes, n, (j - 1) as nat) + match nodes[n].rvalues@[j - 1] {
            Some(c) => if n < c < nodes.len() { node_len(nodes, c as int) } else { 0 },
            None => 0,
        }
    }
}

/// The node reached from node `n` by following the bytes of `p`, first byte first.
pub(crate) closed spec fn reach_from<V>(nodes: Seq<ByteTrieNode<V>>, n: int, p: Seq<u8>) -> Option<int>
    decreases p.len(),
{
    if p.len() == 0 {
        Some(n)
    } else {
        match child_of(nodes, n, p[0]) {
            Some(c) => reach_from(nodes, c, p.drop_first()),
            None => None,
        }
    }
}

proof fn lemma_reach_from_push<V>(nodes: Seq<ByteTrieNode<V>>, n: int, p: Seq<u8>, b: u8)
    ensures
        reach_from(nodes, n, p.push(b)) == match reach_from(nodes, n, p) {
            Some(m) => child_of(nodes, m, b),
            None => None,
        },
    decreases p.len(),
{
    let q = p.push(b);
    if p.len() == 0 {
        assert(q.drop_first() =~= Seq::<u8>::empty());
        if let Some(c) = child_of(nodes, n, b) {
            assert(reach_from(nodes, c, q.drop_first()) == Some(c));
        }
    } else {
        assert(q[0] == p[0]);
        assert(q.drop_first() =~= p.drop_first().push(b));
        if let Some(c) = child_of(nodes, n, p[0]) {
            lemma_reach_from_push(nodes, c, p.drop_first(), b);
        }
    }
}

/// Following a path from the root gives the node `reach` gives.
proof fn lemma_reach_from_root<V>(nodes: Seq<ByteTrieNode<V>>, p: Seq<u8>)
    ensures
        reach(nodes, p) == reach_from(nodes, 0, p),
    decreases p.len(),
{
    if p.len() > 0 {
        lemma_reach_from_root(nodes, p.drop_last());
        lemma_reach_from_push(nodes, 0, p.drop_last(), p.last());
        assert(p.drop_last().push(p.last()) =~= p);
    }
}

/// The keys held by node `n` and the nodes below it, taken from `n`.
pub(crate) closed spec fn keys_at<V>(nodes: Seq<ByteTrieNode<V>>, n: int) -> Set<Seq<u8>> {
    Set::new(|k: Seq<u8>| k.len() > 0 && match reach_from(nodes, n, k.drop_last()) {
        Some(m) => nodes[m].vvalues@[k.last() as int] is Some,
        None => false,
    })
}

/// The keys of `keys_at(nodes, n)` whose first byte is below `j`.
pub(crate) closed spec fn keys_below_byte<V>(nodes: Seq<ByteTrieNode<V>>, n: int, j: nat) -> Set<Seq<u8>> {
    keys_at(nodes, n).filter(|k: Seq<u8>| k[0] < j)
}

/// A key of two or more bytes lies below node `n` when its rest lies below the child of its
/// first byte; a key of one byte, when `n` holds a value at that byte.
proof fn lemma_keys_at_member<V>(nodes: Seq<ByteTrieNode<V>>, n: int, k: Seq<u8>)
    requires
        k.len() > 0,
    ensures
        k.len() == 1 ==> (keys_at(nodes, n).contains(k) <==> nodes[n].vvalues@[k[0] as int] is Some),
        k.len() > 1 ==> (keys_at(nodes, n).contains(k) <==> match child_of(nodes, n, k[0]) {
            Some(c) => keys_at(nodes, c).contains(k.drop_first()),
            None => false,
        }),
{
    if k.len() == 1 {
        assert(k.drop_last() =~= Seq::<u8>::empty());
    } else {
        let d = k.drop_last();
        assert(d[0] == k[0]);
        assert(d.drop_first() =~= k.drop_first().drop_last());
        assert(k.drop_first().last() == k.last());
    }
}

/// The keys below node `n` whose first byte is below `j` are as many as the values of `n` at
/// those bytes plus the keys below the children at those bytes.
proof fn lemma_keys_count_below<V>(nodes: Seq<ByteTrieNode<V>>, n: int, j: nat)
    requires
        arena_wf(nodes),
        0 <= n < nodes.len(),
        j <= 256,
    ensures
        keys_below_byte(nodes, n, j).finite(),
        keys_below_byte(nodes, n, j).len() == mask_count_below(nodes[n].vmask, j) + slots_len(nodes, n, j),
    decreases nodes.len() - n, j,
{
    broadcast use vstd::set_lib::group_set_lib_default;
    assert(node_wf(nodes, n));
    let s = keys_below_byte(nodes, n, j);
    if j == 0 {
        assert(s =~= Set::empty());
    } else {
        lemma_keys_count_below(nodes, n, (j - 1) as nat);
        let b = (j - 1) as u8;
        let prev = keys_below_byte(nodes, n, (j - 1) as nat);
        let vset: Set<Seq<u8>> = if nodes[n].vvalues@[b as int] is Some { set![seq![b]] } else { Set::empty() };
        let f = |t: Seq<u8>| seq![b] + t;
        let wset: Set<Seq<u8>> = match child_of(nodes, n, b) {
            Some(c) => keys_at(nodes, c).map(f),
            None => Set::empty(),
        };
        let wlen: nat = match child_of(nodes, n, b) {
            Some(c) => node_len(nodes, c),
            None => 0,
        };
        if let Some(c) = child_of(nodes, n, b) {
            assert(n < c < nodes.len());
            lemma_keys_count(nodes, c);
            assert forall|x: Seq<u8>, y: Seq<u8>| keys_at(nodes, c).contains(x) && keys_at(nodes, c).contains(y)
                && #[trigger] f(x) == #[trigger] f(y) implies x == y by {
                assert(x =~= f(x).drop_first());
                assert(y =~= f(y).drop_first());
            }
            vstd::set_lib::lemma_map_size(keys_at(nodes, c), wset, f);
        }
        assert(wset.finite() && wset.len() == wlen);
        assert forall|k: Seq<u8>| #[trigger] s.contains(k) <==> prev.contains(k) || vset.contains(k) || wset.contains(k) by {
            if wset.contains(k) {
                let c = child_of(nodes, n, b).unwrap();
                let t = choose|t: Seq<u8>| keys_at(nodes, c).contains(t) && f(t) == k;
                assert(keys_at(nodes, c).contains(t));
                assert(t.len() > 0);
                assert(k.drop_first() =~= t);
                assert(k[0] == b);
                lemma_keys_at_member(nodes, n, k);
                assert(keys_at(nodes, n).contains(k));
            }
            if vset.contains(k) {
                assert(k == seq![b]);
                lemma_keys_at_member(nodes, n, k);
                assert(keys_at(nodes, n).contains(k));
            }
            if s.contains(k) && !prev.contains(k) {
                assert(keys_at(nodes, n).contains(k));
                assert(k.len() > 0);
                assert(k[0] == b);
                lemma_keys_at_member(nodes, n, k);
                if k.len() == 1 {
                    assert(k =~= seq![b]);
                } else {
                    let c = child_of(nodes, n, b).unwrap();
                    let t = k.drop_first();
                    assert(keys_at(nodes, c).contains(t));
                    assert(k =~= f(t));
                    assert(keys_at(nodes, c).contains(t) && f(t) == k);
                    assert(wset.contains(k));
                }
            }
        }
        assert(s =~= prev + vset + wset);
        assert(prev.disjoint(vset));
        assert(prev.disjoint(wset)) by {
            assert forall|k: Seq<u8>| !(prev.contains(k) && wset.contains(k)) by {
                if wset.contains(k) {
                    let c = child_of(nodes, n, b).unwrap();
                    let t = choose|t: Seq<u8>| keys_at(nodes, c).contains(t) && f(t) == k;
                    assert(k[0] == b);
                }
            }
        }
        assert((prev + vset).disjoint(wset)) by {
            assert forall|k: Seq<u8>| !((prev + vset).contains(k) && wset.contains(k)) by {
                if wset.contains(k) {
                    let c = child_of(nodes, n, b).unwrap();
                    let t = choose|t: Seq<u8>| keys_at(nodes, c).contains(t) && f(t) == k;
                    assert(t.len() > 0);
                    assert(k.len() > 1);
                }
            }
        }
        vstd::set_lib::lemma_set_disjoint_lens(prev, vset);
        vstd::set_lib::lemma_set_disjoint_lens(prev + vset, wset);
        assert(mask_has(nodes[n].vmask, b) == (nodes[n].vvalues@[b as int] is Some));
        assert(slots_len(nodes, n, j) == slots_len(nodes, n, (j - 1) as nat) + wlen);
    }
}

/// The keys below node `n` are as many as `node_len` counts.
proof fn lemma_keys_count<V>(nodes: Seq<ByteTrieNode<V>>, n: int)
    requires
        arena_wf(nodes),
        0 <= n < nodes.len(),
    ensures
        keys_at(nodes, n).finite(),
        keys_at(nodes, n).len() == node_len(nodes, n),
    decreases nodes.len() - n, 257nat,
{
    lemma_keys_count_below(nodes, n, 256);
    assert(keys_below_byte(nodes, n, 256) =~= keys_at(nodes, n));
}

impl<V> ByteTrieNodePtr<V> {
    fn node_len(&self, n: usize) -> (r: usize)
        requires
            self.wf(),
            n < self.nodes@.len(),
            node_len(self.nodes@, n as int) <= usize::MAX,
        ensures
            r == node_len(self.nodes@, n as int),
        decreases self.nodes@.len() - n,
    {
        proof {
            assert(node_wf(self.nodes@, n as int));
        }
        let rl: usize = 256;
        let mut t = Utils::len(&self.nodes[n].vmask);
        let mut i: usize = 0;
        while i < rl
            invariant
                self.wf(),
                n < self.nodes@.len(),
                node_wf(self.nodes@, n as int),
                rl == 256,
                i <= rl,
                node_len(self.nodes@, n as int) <= usize::MAX,
                t == mask_len(self.nodes@[n as int].vmask) + slots_len(self.nodes@, n as int, i as nat),
            decreases rl - i,
        {
            proof {
                Self::lemma_slots_len_mono(self.nodes@, n as int, (i + 1) as nat, rl as nat);
            }
            match self.nodes[n].rvalues[i] {
                Some(c) => {
                    proof {
                        assert(child_of(self.nodes@, n as int, i as u8) == Some(c as int));
                    }
                    let l = self.node_len(c);
                    t = t + l;
                },
                None => {},
            }
            i += 1;
        }
        t
    }

    proof fn lemma_slots_len_mono(nodes: Seq<ByteTrieNode<V>>, n: int, j: nat, k: nat)
        requires
            j <= k <= 256,
        ensures
            slots_len(nodes, n, j) <= slots_len(nodes, n, k),
        decreases k,
    {
        if j < k {
            Self::lemma_slots_len_mono(nodes, n, j, (k - 1) as nat);
        }
    }

    /// The number of entries of the map: the values of each node, counted from the root down
    /// through every child.
    pub fn len(&self) -> (r: usize)
        requires
            self.wf(),
            self@.len() <= usize::MAX,
        ensures
            r == self@.len(),
    {
        proof {
            lemma_keys_count(self.nodes@, 0);
            assert forall|k: Seq<u8>| #[trigger] self@.dom().contains(k) <==> keys_at(self.nodes@, 0).contains(k) by {
                if k.len() > 0 {
                    lemma_reach_from_root(self.nodes@, k.drop_last());
                }
            }
            assert(self@.dom() =~= keys_at(self.nodes@, 0));
        }
        self.node_len(0)
    }
}


/// Visits the filled slots of a node's table in increasing byte order.
pub struct ByteTrieNodeIter<'a, V> {
    i: u8,
    w: u64,
    m: &'a [u64; 4],
    v: &'a Vec<Option<V>>,
}

impl<'a, V> ByteTrieNodeIter<'a, V> {
    #[verifier::type_invariant]
    spec fn inv(self) -> bool {
        &&& slots_wf(*self.m, self.v@)
        &&& self.i <= 3
        &&& forall|j: u64| j < 64 && #[trigger] bit(self.w, j) ==> bit(self.m[self.i as int], j)
    }

    /// The bytes whose slots are still to be visited.
    pub closed spec fn remaining(self) -> Set<u8> {
        Set::new(
            |b: u8|
                (b / 64 == self.i && bit(self.w, (b % 64) as u64)) || (b / 64 > self.i && mask_has(
                    *self.m,
                    b,
                )),
        )
    }

    /// The slot table being visited.
    pub closed spec fn table(self) -> Seq<Option<V>> {
        self.v@
    }

    /// Starts a visit of the slots of `values` that `m` marks as filled.
    pub fn new(m: &'a [u64; 4], values: &'a Vec<Option<V>>) -> (r: Self)
        requires
            slots_wf(*m, values@),
        ensures
            r.remaining() == mask_view(*m),
            r.table() == values@,
    {
        let r = ByteTrieNodeIter { i: 0, w: m[0], m, v: values };
        proof {
            assert(r.remaining() =~= mask_view(*m));
        }
        r
    }

    /// The smallest byte not yet visited, with the value in its slot; `None` once all are visited.
    pub fn next(&mut self) -> (r: Option<(u8, &'a V)>)
        ensures
            final(self).table() == old(self).table(),
            r matches Some(e) ==> {
                &&& old(self).remaining().contains(e.0)
                &&& forall|c: u8| old(self).remaining().contains(c) ==> e.0 <= c
                &&& final(self).remaining() == old(self).remaining().remove(e.0)
                &&& old(self).table()[e.0 as int] == Some(*e.1)
            },
            r is None ==> old(self).remaining() == Set::<u8>::empty(),
    {
        proof { use_type_invariant(&*self); }
        let ghost orem = self.remaining();
        loop
            invariant
                slots_wf(*self.m, self.v@),
                self.i <= 3,
                forall|j: u64| j < 64 && #[trigger] bit(self.w, j) ==> bit(self.m[self.i as int], j),
                self.remaining() == orem,
                orem == old(self).remaining(),
                self.v@ == old(self).v@,
            decreases 3 - self.i,
        {
            if self.w != 0 {
                let w = self.w;
                let i = self.i;
                let wi = w.trailing_zeros();
                proof {
                    axiom_u64_trailing_zeros(w);
                }
                let t = wi as u8;
                let nw = w ^ (1u64 << t);
                let index = i * 64 + t;
                proof {
                    let tt = t as u64;
                    assert((w >> tt) & 1u64 == 1u64 ==> w & (1u64 << tt) != 0) by (bit_vector);
                    assert(bit(w, tt));
                    assert(index / 64 == i && index % 64 == t);
                    assert forall|j: u64| j < 64 && #[trigger] bit(nw, j) implies bit(w, j) && j != tt by {
                        assert((w ^ (1u64 << tt)) & (1u64 << j) != 0 ==> (w & (1u64 << j) != 0 && j != tt))
                            by (bit_vector)
                            requires
                                tt < 64,
                                j < 64,
                                w & (1u64 << tt) != 0,
                        ;
                    }
                    assert forall|j: u64| j < 64 && bit(w, j) && j != tt implies #[trigger] bit(nw, j) by {
                        assert(w & (1u64 << j) != 0 && j != tt ==> (w ^ (1u64 << tt)) & (1u64 << j) != 0)
                            by (bit_vector)
                            requires
                                tt < 64,
                                j < 64,
                        ;
                    }
                    assert(self.remaining() == orem);
                    assert forall|c: u8| orem.contains(c) implies index <= c by {
                        let ci = (c % 64) as u64;
                        if c / 64 == i && ci < tt {
                            assert((w >> ci) & 1u64 == 0u64);
                            assert((w >> ci) & 1u64 == 0u64 ==> w & (1u64 << ci) == 0) by (bit_vector);
                        }
                    }
                    assert(mask_has(*self.m, index));
                }
                self.w = nw;
                proof {
                    assert(self.remaining() =~= orem.remove(index));
                }
                let val = Utils::get(self.m, self.v, index);
                return Some((index, val.unwrap()));
            } else if self.i < 3 {
                proof {
                    assert forall|j: u64| j < 64 && bit(0u64, j) implies false by {
                        assert(0u64 & (1u64 << j) == 0) by (bit_vector);
                    }
                }
                self.i = self.i + 1;
                self.w = self.m[self.i as usize];
                proof {
                    assert(self.remaining() =~= orem);
                }
            } else {
                proof {
                    assert forall|c: u8| !orem.contains(c) by {
                        let ci = (c % 64) as u64;
                        assert(0u64 & (1u64 << ci) == 0) by (bit_vector);
                    }
                    assert(orem =~= Set::<u8>::empty());
                }
                return None;
            }
        }
    }
}

/// A walk over the entries of a trie: the key prefix of the node being visited, and for each
/// node on the way down from the root a visit of its children and one of its values.
pub struct BytesTrieMapIter<'a, V> {
    prefix: Vec<u8>,
    rtrace: Vec<ByteTrieNodeIter<'a, usize>>,
    vtrace: Vec<ByteTrieNodeIter<'a, V>>,
}

impl<'a, V> BytesTrieMapIter<'a, V> {
    /// The key prefix of the node being visited.
    pub closed spec fn prefix(self) -> Seq<u8> {
        self.prefix@
    }

    /// The number of nodes on the way down, the root included.
    pub closed spec fn depth(self) -> nat {
        self.rtrace@.len()
    }

    /// The bytes of the node being visited whose children are still to be visited.
    pub closed spec fn pending_children(self) -> Set<u8> {
        self.rtrace@.last().remaining()
    }

    /// The bytes of the node being visited whose values are still to be visited.
    pub closed spec fn pending_values(self) -> Set<u8> {
        self.vtrace@.last().remaining()
    }

    /// A walk that starts at the root of `btm`, before any of its entries.
    pub fn new(btm: &'a ByteTrieNodePtr<V>) -> (r: Self)
        requires
            btm.wf(),
        ensures
            r.prefix() == Seq::<u8>::empty(),
            r.depth() == 1,
            r.pending_children() == Set::new(|b: u8| btm.root_child(b) is Some),
            r.pending_values() == Set::new(|b: u8| btm@.contains_key(seq![b])),
    {
        proof {
            assert(node_wf(btm.nodes@, 0));
        }
        let root = &btm.nodes[0];
        let ri = ByteTrieNodeIter::new(&root.rmask, &root.rvalues);
        let vi = ByteTrieNodeIter::new(&root.vmask, &root.vvalues);
        let mut rtrace: Vec<ByteTrieNodeIter<'a, usize>> = Vec::new();
        rtrace.push(ri);
        let mut vtrace: Vec<ByteTrieNodeIter<'a, V>> = Vec::new();
        vtrace.push(vi);
        let r = Self { prefix: Vec::new(), rtrace, vtrace };
        proof {
            assert(r.pending_children() =~= Set::new(|b: u8| btm.root_child(b) is Some)) by {
                assert forall|b: u8| mask_view(root.rmask).contains(b) == (btm.root_child(b) is Some) by {
                    assert(mask_has(root.rmask, b) == root.rvalues@[b as int] is Some);
                }
            }
            assert(r.pending_values() =~= Set::new(|b: u8| btm@.contains_key(seq![b]))) by {
                assert forall|b: u8| mask_view(root.vmask).contains(b) == btm@.contains_key(seq![b]) by {
                    assert(mask_has(root.vmask, b) == root.vvalues@[b as int] is Some);
                    assert(seq![b].drop_last() =~= Seq::<u8>::empty());
                    btm.lemma_view_key(seq![b]);
                }
            }
        }
        r
    }
}

impl<V> ByteTrieNodePtr<V> {
    /// The child of the root reached by byte `b`.
    pub closed spec fn root_child(self, b: u8) -> Option<int> {
        child_of(self.nodes@, 0, b)
    }
}

} // verus!
