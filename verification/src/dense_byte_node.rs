//! Trie nodes with one slot per byte, whose children are shared by reference counting.

use std::rc::Rc;
use vstd::prelude::*;

verus! {

/// The slot of one byte in a node: a child node and a value, each optional.
pub struct CoFree<V> {
    pub rec: Option<TrieNodeODRc<V>>,
    pub value: Option<V>,
}

/// A shared, immutable handle on a node; cloning it shares the node.
pub struct TrieNodeODRc<V> {
    node: Rc<DenseByteNode<V>>,
}

/// A trie node holding one slot for each of the 256 bytes.
pub struct DenseByteNode<V> {
    slots: Vec<Option<CoFree<V>>>,
}

/// Another handle on the allocation behind `rc`: `Rc::clone`.
///
/// Trusted: std documents `Rc::clone` as making another pointer to the same allocation, so
/// the result points to the same value as `rc`.
#[verifier::external_body]
fn rc_share<T>(rc: &Rc<T>) -> (r: Rc<T>)
    ensures
        r == *rc,
{
    Rc::clone(rc)
}

impl<V> TrieNodeODRc<V> {
    /// The node behind the handle.
    pub closed spec fn node(self) -> DenseByteNode<V> {
        *self.node
    }

    /// A handle on a new allocation holding `node`.
    pub fn new(node: DenseByteNode<V>) -> (r: Self)
        ensures
            r.node() == node,
    {
        TrieNodeODRc { node: Rc::new(node) }
    }

    /// The node behind the handle.
    pub fn as_dense(&self) -> (r: &DenseByteNode<V>)
        ensures
            *r == self.node(),
    {
        &*self.node
    }

    /// Another handle on the same node.
    pub fn share(&self) -> (r: Self)
        ensures
            r.node() == self.node(),
    {
        TrieNodeODRc { node: rc_share(&self.node) }
    }
}

impl<V> DenseByteNode<V> {
    /// The node holds exactly 256 slots.
    pub closed spec fn wf(self) -> bool {
        self.slots@.len() == 256
    }

    /// Whether the node holds exactly 256 slots.
    pub fn is_wf(&self) -> (r: bool)
        ensures
            r == self.wf(),
    {
        self.slots.len() == 256
    }

    /// The slot of byte `b`.
    pub closed spec fn slot(self, b: u8) -> Option<CoFree<V>> {
        self.slots@[b as int]
    }

    /// A node with every slot empty.
    pub fn new() -> (r: Self)
        ensures
            r.wf(),
            forall|b: u8| #[trigger] r.slot(b) is None,
    {
        let mut slots: Vec<Option<CoFree<V>>> = Vec::with_capacity(256);
        let mut i: usize = 0;
        while i < 256
            invariant
                i <= 256,
                slots@.len() == i,
                forall|j: int| 0 <= j < i ==> slots@[j] is None,
            decreases 256 - i,
        {
            slots.push(None);
            i += 1;
        }
        DenseByteNode { slots }
    }

    /// A node with every slot empty, expected to receive about `cap` entries.
    pub fn with_capacity(cap: usize) -> (r: Self)
        ensures
            r.wf(),
            forall|b: u8| #[trigger] r.slot(b) is None,
    {
        Self::new()
    }

    /// The slot of byte `k`.
    pub fn get(&self, k: u8) -> (r: Option<&CoFree<V>>)
        requires
            self.wf(),
        ensures
            r == match self.slot(k) {
                Some(c) => Some(&c),
                None => None::<&CoFree<V>>,
            },
    {
        self.slots[k as usize].as_ref()
    }

    /// Takes the slot of `k` out, leaving it empty.
    fn take_slot(&mut self, k: u8) -> (r: Option<CoFree<V>>)
        requires
            old(self).wf(),
        ensures
            r == old(self).slot(k),
            final(self).wf(),
            final(self).slots@ == old(self).slots@.update(k as int, None),
    {
        let mut cell: Option<CoFree<V>> = None;
        std::mem::swap(&mut self.slots[k as usize], &mut cell);
        cell
    }

    /// Sets the value of byte `k`, keeping its child.
    pub fn set_val(&mut self, k: u8, v: V)
        requires
            old(self).wf(),
        ensures
            final(self).wf(),
            final(self).slot(k) == Some(CoFree {
                rec: match old(self).slot(k) {
                    Some(c) => c.rec,
                    None => None,
                },
                value: Some(v),
            }),
            forall|b: u8| b != k ==> #[trigger] final(self).slot(b) == old(self).slot(b),
    {
        let cell = self.take_slot(k);
        let rec = match cell {
            Some(c) => c.rec,
            None => None,
        };
        self.slots.set(k as usize, Some(CoFree { rec, value: Some(v) }));
    }

    /// Sets the child of byte `k`, keeping its value.
    pub fn set_child(&mut self, k: u8, child: TrieNodeODRc<V>)
        requires
            old(self).wf(),
        ensures
            final(self).wf(),
            final(self).slot(k) == Some(CoFree {
                rec: Some(child),
                value: match old(self).slot(k) {
                    Some(c) => c.value,
                    None => None,
                },
            }),
            forall|b: u8| b != k ==> #[trigger] final(self).slot(b) == old(self).slot(b),
    {
        let cell = self.take_slot(k);
        let value = match cell {
            Some(c) => c.value,
            None => None,
        };
        self.slots.set(k as usize, Some(CoFree { rec: Some(child), value }));
    }

    /// Every key of the node is `l` bytes long: values sit only at depth `l` (the slots of
    /// the last level), and every slot above holds a child and no value.
    pub open spec fn shaped(self, l: nat) -> bool
        decreases l,
    {
        &&& self.wf()
        &&& l >= 1
        &&& forall|b: u8| #[trigger] self.slot(b) is Some ==> {
            let c = self.slot(b).unwrap();
            if l == 1 {
                c.value is Some && c.rec is None
            } else {
                &&& c.value is None
                &&& c.rec is Some
                &&& c.rec.unwrap().node().shaped((l - 1) as nat)
            }
        }
    }

    /// `u` is a key of the node, of length `l`: its last byte holds a value at depth `l`.
    pub open spec fn has_key(self, l: nat, u: Seq<u8>) -> bool
        decreases l,
    {
        &&& l >= 1
        &&& u.len() == l
        &&& self.slot(u[0]) is Some
        &&& if l == 1 {
            self.slot(u[0]).unwrap().value is Some
        } else {
            &&& self.slot(u[0]).unwrap().rec is Some
            &&& self.slot(u[0]).unwrap().rec.unwrap().node().has_key((l - 1) as nat, u.drop_first())
        }
    }

    /// The keys of length `l` of the node.
    pub open spec fn keys(self, l: nat) -> Set<Seq<u8>> {
        Set::new(|u: Seq<u8>| self.has_key(l, u))
    }

    /// Whether every slot is empty.
    pub fn node_is_empty(&self) -> (r: bool)
        requires
            self.wf(),
        ensures
            r == forall|b: u8| #[trigger] self.slot(b) is None,
    {
        let mut i: usize = 0;
        while i < 256
            invariant
                self.wf(),
                i <= 256,
                forall|b: u8| b < i ==> #[trigger] self.slot(b) is None,
            decreases 256 - i,
        {
            if self.slots[i].is_some() {
                assert(self.slot(i as u8) is Some);
                return false;
            }
            i += 1;
        }
        true
    }
}

} // verus!
