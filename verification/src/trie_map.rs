//! A map from byte strings to values held in a trie of shared nodes.

use vstd::prelude::*;
use crate::dense_byte_node::{DenseByteNode, TrieNodeODRc};

verus! {

/// Every node reached from `n` within `h` steps down holds 256 slots, and no child lies deeper
/// than `h` steps.
pub open spec fn bounded<V>(n: DenseByteNode<V>, h: nat) -> bool
    decreases h,
{
    &&& n.wf()
    &&& forall|b: u8| #[trigger] n.slot(b) is Some && n.slot(b).unwrap().rec is Some ==> {
        &&& h > 0
        &&& bounded(n.slot(b).unwrap().rec.unwrap().node(), (h - 1) as nat)
    }
}

/// Some bound holds for `n`.
pub open spec fn has_bound<V>(n: DenseByteNode<V>) -> bool {
    exists|h: nat| bounded(n, h)
}

/// A node whose keys all have length `l` reaches no child deeper than `l - 1` steps down.
pub proof fn lemma_shaped_bounded<V>(n: DenseByteNode<V>, l: nat)
    requires
        n.shaped(l),
    ensures
        bounded(n, (l - 1) as nat),
        has_bound(n),
    decreases l,
{
    assert forall|b: u8| #[trigger] n.slot(b) is Some && n.slot(b).unwrap().rec is Some implies {
        &&& (l - 1) as nat > 0
        &&& bounded(n.slot(b).unwrap().rec.unwrap().node(), (l - 2) as nat)
    } by {
        lemma_shaped_bounded(n.slot(b).unwrap().rec.unwrap().node(), (l - 1) as nat);
    }
    assert(bounded(n, (l - 1) as nat));
}

/// The entries (key, value) of `n` and of its children, reached within `h` steps down, under the
/// bytes from `b` on, keys prefixed with `pre`, in the order of the keys.
pub open spec fn entries_from<V>(n: DenseByteNode<V>, h: nat, b: nat, pre: Seq<u8>) -> Seq<(Seq<u8>, V)>
    decreases h, 257 - b,
{
    if b >= 256 {
        Seq::empty()
    } else {
        entries_at(n, h, b as u8, pre) + entries_from(n, h, b + 1, pre)
    }
}

/// The entries under byte `b` of `n`: its own value first, then the entries of its child.
pub open spec fn entries_at<V>(n: DenseByteNode<V>, h: nat, b: u8, pre: Seq<u8>) -> Seq<(Seq<u8>, V)>
    decreases h, 0nat,
{
    match n.slot(b) {
        None => Seq::empty(),
        Some(c) => {
            let own: Seq<(Seq<u8>, V)> = match c.value {
                Some(v) => seq![(pre.push(b), v)],
                None => Seq::empty(),
            };
            let below: Seq<(Seq<u8>, V)> = match c.rec {
                Some(r) => if h > 0 {
                    entries_from(r.node(), (h - 1) as nat, 0, pre.push(b))
                } else {
                    Seq::empty()
                },
                None => Seq::empty(),
            };
            own + below
        },
    }
}

/// The entries of `out` as keys and values.
pub open spec fn entries_view<'a, V>(out: Seq<(Vec<u8>, &'a V)>) -> Seq<(Seq<u8>, V)> {
    out.map_values(|e: (Vec<u8>, &'a V)| (e.0@, *e.1))
}

/// A map from byte strings to values, held in a trie whose nodes may be shared.
pub struct BytesTrieMap<V> {
    root: TrieNodeODRc<V>,
}

impl<V> BytesTrieMap<V> {
    /// The trie of every map has a bound on its depth.
    #[verifier::type_invariant]
    pub open spec fn inv(self) -> bool {
        has_bound(self.root_node())
    }

    /// The root node.
    pub closed spec fn root_node(self) -> DenseByteNode<V> {
        self.root.node()
    }

    /// A map over the trie `root`.
    pub fn new_with_root(root: TrieNodeODRc<V>) -> (r: Self)
        requires
            has_bound(root.node()),
        ensures
            r.root_node() == root.node(),
    {
        BytesTrieMap { root }
    }

    /// The root of the trie.
    pub fn root(&self) -> (r: &TrieNodeODRc<V>)
        ensures
            r.node() == self.root_node(),
    {
        &self.root
    }

    /// All entries of the map, in the order of their keys.
    pub fn iter(&self) -> (r: Vec<(Vec<u8>, &V)>)
        ensures
            exists|h: nat| bounded(self.root_node(), h)
                && entries_view(r@) == entries_from(self.root_node(), h, 0, Seq::empty()),
    {
        proof {
            use_type_invariant(self);
        }
        let ghost h = choose|h: nat| bounded(self.root.node(), h);
        let mut out: Vec<(Vec<u8>, &V)> = Vec::new();
        let mut prefix: Vec<u8> = Vec::new();
        collect(self.root.as_dense(), Ghost(h), &mut prefix, &mut out);
        assert(entries_view(out@) =~= entries_from(self.root_node(), h, 0, Seq::empty()));
        out
    }
}

/// A copy of `v`.
fn copy_bytes(v: &Vec<u8>) -> (r: Vec<u8>)
    ensures
        r@ == v@,
{
    let mut r: Vec<u8> = Vec::with_capacity(v.len());
    let mut i: usize = 0;
    while i < v.len()
        invariant
            i <= v@.len(),
            r@ == v@.take(i as int),
        decreases v@.len() - i,
    {
        r.push(v[i]);
        i += 1;
        assert(r@ =~= v@.take(i as int));
    }
    assert(v@.take(v@.len() as int) =~= v@);
    r
}

/// Appends to `out` the entries of `node` (bounded by `h`) with keys prefixed by `prefix`,
/// leaving `prefix` as it was.
fn collect<'a, V>(node: &'a DenseByteNode<V>, Ghost(h): Ghost<nat>, prefix: &mut Vec<u8>, out: &mut Vec<(Vec<u8>, &'a V)>)
    requires
        bounded(*node, h),
    ensures
        final(prefix)@ == old(prefix)@,
        entries_view(final(out)@) == entries_view(old(out)@) + entries_from(*node, h, 0, old(prefix)@),
    decreases h, 258nat,
{
    let mut b: usize = 0;
    let ghost pre = prefix@;
    while b < 256
        invariant
            b <= 256,
            bounded(*node, h),
            prefix@ == pre,
            entries_view(out@) + entries_from(*node, h, b as nat, pre)
                == entries_view(old(out)@) + entries_from(*node, h, 0, pre),
        decreases 256 - b,
    {
        let ghost before = entries_view(out@);
        match node.get(b as u8) {
            Some(cf) => {
                match &cf.value {
                    Some(v) => {
                        let mut k = copy_bytes(prefix);
                        k.push(b as u8);
                        out.push((k, v));
                    },
                    None => {},
                }
                let ghost mid = entries_view(out@);
                assert(mid =~= before + match cf.value {
                    Some(v) => seq![(pre.push(b as u8), v)],
                    None => Seq::empty(),
                });
                match &cf.rec {
                    Some(r) => {
                        prefix.push(b as u8);
                        collect(r.as_dense(), Ghost((h - 1) as nat), prefix, out);
                        prefix.pop();
                        assert(prefix@ =~= pre);
                    },
                    None => {},
                }
                assert(entries_view(out@) =~= mid + match cf.rec {
                    Some(r) => entries_from(r.node(), (h - 1) as nat, 0, pre.push(b as u8)),
                    None => Seq::empty(),
                });
                assert(entries_view(out@) =~= before + entries_at(*node, h, b as u8, pre));
            },
            None => {
                assert(entries_view(out@) =~= before + entries_at(*node, h, b as u8, pre));
            },
        }
        assert(entries_view(out@) + entries_from(*node, h, (b + 1) as nat, pre)
            =~= before + entries_from(*node, h, b as nat, pre));
        b += 1;
    }
}

} // verus!
