//! A zipper that moves over two tries at once, as if they were one: a path exists
//! where it exists in either trie, and the overlay's values hide the base's.

use vstd::prelude::*;
use crate::utils::{
    mask_has, mask_view, byte_mask_join, byte_mask_next_bit, byte_mask_prev_bit,
    byte_mask_indexed_bit, byte_mask_count_bits,
};
use crate::zipper::{
    count_children, stops_ascent, lemma_mask_count_children, Zipper, ZipperMoving, ZipperPath,
    ZipperValues,
};

verus! {

/// A mapping from the base's values to the overlay's value type.
pub trait OverlayMapping<VBase, VOverlay> {
    /// The value that `v` maps to.
    spec fn maps(&self, v: VBase) -> VOverlay;

    /// Maps `v`.
    fn map<'a>(&self, v: &'a VBase) -> (r: &'a VOverlay)
        ensures
            *r == self.maps(*v),
    ;
}

/// Returns its argument.
pub fn identity_ref<V>(x: &V) -> (r: &V)
    ensures
        r == x,
{
    x
}

/// The identity mapping.
pub struct IdentityRef;

impl<V> OverlayMapping<V, V> for IdentityRef {
    open spec fn maps(&self, v: V) -> V {
        v
    }

    fn map<'a>(&self, v: &'a V) -> (r: &'a V) {
        identity_ref(v)
    }
}

/// The length of the longest common prefix of `a` and `b`.
pub fn find_prefix_overlap(a: &[u8], b: &[u8]) -> (r: usize)
    ensures
        r <= a@.len(),
        r <= b@.len(),
        a@.take(r as int) == b@.take(r as int),
        r < a@.len() && r < b@.len() ==> a@[r as int] != b@[r as int],
{
    let mut i: usize = 0;
    while i < a.len() && i < b.len() && a[i] == b[i]
        invariant
            i <= a@.len(),
            i <= b@.len(),
            a@.take(i as int) == b@.take(i as int),
        decreases a@.len() - i,
    {
        assert(a@.take(i + 1) =~= a@.take(i as int).push(a@[i as int]));
        assert(b@.take(i + 1) =~= b@.take(i as int).push(b@[i as int]));
        i += 1;
    }
    i
}

/// Where the overlay holds a value, it hides the base's value; elsewhere the base's value shows
/// through the mapping, and where neither holds one there is none.
pub proof fn law_overlay_value_hides_base<VBase, VOverlay, Base, Overlay, Mapping>(
    z: OverlayZipper<VBase, VOverlay, Base, Overlay, Mapping>,
    p: Seq<u8>,
)
    where
        Base: ZipperValues<VBase> + ZipperMoving + ZipperPath,
        Overlay: ZipperValues<VOverlay> + ZipperMoving + ZipperPath,
        Mapping: OverlayMapping<VBase, VOverlay>,
    ensures
        z.overlay().vals().contains(p) ==> z.value_at(p) == z.overlay().value_at(p),
        !z.overlay().vals().contains(p) && z.base().vals().contains(p) ==> z.value_at(p) == match z.base().value_at(p) {
            Some(w) => Some(z.mapping().maps(w)),
            None => None::<VOverlay>,
        },
        !z.overlay().vals().contains(p) && !z.base().vals().contains(p) ==> z.value_at(p) is None,
{
}

/// Two zippers moved in step: `overlay` over a trie laid on top of `base`'s trie.
pub struct OverlayZipper<VBase, VOverlay, Base, Overlay, Mapping> {
    base: Base,
    overlay: Overlay,
    mapping: Mapping,
    _marker: core::marker::PhantomData<(VBase, VOverlay)>,
}

impl<Value, Base, Overlay> OverlayZipper<Value, Value, Base, Overlay, IdentityRef> where
    Base: ZipperValues<Value> + ZipperMoving + ZipperPath,
    Overlay: ZipperValues<Value> + ZipperMoving + ZipperPath,
 {
    /// Lays `overlay` over `base`; both must be at the same focus.
    pub fn new(base: Base, overlay: Overlay) -> (r: Self)
        requires
            base.inv(),
            overlay.inv(),
            base.focus() == overlay.focus(),
        ensures
            r.inv(),
            r.focus() == overlay.focus(),
            r.paths() == base.paths() + overlay.paths(),
            r.vals() == base.vals() + overlay.vals(),
            r.base() == base,
            r.overlay() == overlay,
            r.mapping() == IdentityRef,
    {
        Self { base, overlay, mapping: IdentityRef, _marker: core::marker::PhantomData }
    }
}

impl<VBase, VOverlay, Base, Overlay, Mapping> OverlayZipper<VBase, VOverlay, Base, Overlay, Mapping> where
    Base: ZipperValues<VBase> + ZipperMoving + ZipperPath,
    Overlay: ZipperValues<VOverlay> + ZipperMoving + ZipperPath,
    Mapping: OverlayMapping<VBase, VOverlay>,
 {
    /// Lays `overlay` over `base`, reading the base's values through `mapping`; both must be at
    /// the same focus.
    pub fn with_mapping(base: Base, overlay: Overlay, mapping: Mapping) -> (r: Self)
        requires
            base.inv(),
            overlay.inv(),
            base.focus() == overlay.focus(),
        ensures
            r.inv(),
            r.focus() == overlay.focus(),
            r.paths() == base.paths() + overlay.paths(),
            r.vals() == base.vals() + overlay.vals(),
            r.base() == base,
            r.overlay() == overlay,
            r.mapping() == mapping,
    {
        Self { base, overlay, mapping, _marker: core::marker::PhantomData }
    }

    /// The base zipper.
    pub closed spec fn base(&self) -> Base {
        self.base
    }

    /// The overlay zipper.
    pub closed spec fn overlay(&self) -> Overlay {
        self.overlay
    }

    /// The mapping of base values.
    pub closed spec fn mapping(&self) -> Mapping {
        self.mapping
    }

    /// Both zippers are well formed and at the same focus.
    pub closed spec fn in_step(&self) -> bool {
        &&& self.base.inv()
        &&& self.overlay.inv()
        &&& self.base.focus() == self.overlay.focus()
    }

    /// Moves to the next (`next`) or previous sibling of the combined trie.
    fn to_sibling(&mut self, next: bool) -> (r: Option<u8>)
        requires
            old(self).inv(),
        ensures
            final(self).inv(),
            final(self).paths() == old(self).paths() && final(self).vals() == old(self).vals(),
            r is None ==> final(self).focus() == old(self).focus(),
            r is None && old(self).focus().len() > 0 ==> forall|c: u8|
                (if next { c > old(self).focus().last() } else { c < old(self).focus().last() })
                    ==> !#[trigger] old(self).paths().contains(old(self).focus().drop_last().push(c)),
            r matches Some(b) ==> {
                &&& old(self).focus().len() > 0
                &&& if next { b > old(self).focus().last() } else { b < old(self).focus().last() }
                &&& final(self).focus() == old(self).focus().drop_last().push(b)
                &&& old(self).paths().contains(final(self).focus())
                &&& forall|c: u8|
                    (if next { old(self).focus().last() < c < b } else { b < c < old(self).focus().last() })
                        ==> !#[trigger] old(self).paths().contains(old(self).focus().drop_last().push(c))
            },
    {
        let len = self.path().len();
        if len == 0 {
            return None;
        }
        let last = self.path()[len - 1];
        let ghost of = self.focus();
        let _ = self.ascend(1);
        assert(self.focus() =~= of.drop_last());
        let child_mask = self.child_mask();
        let maybe_child = if next {
            byte_mask_next_bit(child_mask, last)
        } else {
            byte_mask_prev_bit(child_mask, last)
        };
        let ghost parent = self.focus();
        proof {
            assert forall|c: u8| #[trigger] self.paths().contains(parent.push(c)) == mask_has(child_mask, c) by {}
        }
        match maybe_child {
            None => {
                self.descend_to_byte(last);
                assert(of.drop_last().push(last) =~= of);
                None
            },
            Some(child) => {
                self.descend_to_byte(child);
                Some(child)
            },
        }
    }
}

impl<VBase, VOverlay, Base, Overlay, Mapping> Zipper for OverlayZipper<VBase, VOverlay, Base, Overlay, Mapping> where
    Base: ZipperValues<VBase> + ZipperMoving + ZipperPath,
    Overlay: ZipperValues<VOverlay> + ZipperMoving + ZipperPath,
    Mapping: OverlayMapping<VBase, VOverlay>,
 {
    open spec fn inv(&self) -> bool {
        self.in_step()
    }

    open spec fn focus(&self) -> Seq<u8> {
        self.overlay().focus()
    }

    open spec fn paths(&self) -> Set<Seq<u8>> {
        self.base().paths() + self.overlay().paths()
    }

    open spec fn vals(&self) -> Set<Seq<u8>> {
        self.base().vals() + self.overlay().vals()
    }

    proof fn lemma_prefix_closed(&self, p: Seq<u8>, n: int) {
        if self.base().paths().contains(p) {
            self.base().lemma_prefix_closed(p, n);
        } else {
            self.overlay().lemma_prefix_closed(p, n);
        }
    }

    fn path_exists(&self) -> (r: bool) {
        self.overlay.path_exists() || self.base.path_exists()
    }

    fn is_val(&self) -> (r: bool) {
        self.overlay.is_val() || self.base.is_val()
    }

    fn child_count(&self) -> (r: usize) {
        let m = self.child_mask();
        proof {
            lemma_mask_count_children(m, self.paths(), self.focus(), 256);
        }
        byte_mask_count_bits(m)
    }

    fn child_mask(&self) -> (r: [u64; 4]) {
        let r = byte_mask_join(self.overlay.child_mask(), self.base.child_mask());
        proof {
            assert forall|b: u8| #[trigger] mask_has(r, b) == self.paths().contains(self.focus().push(b)) by {
                assert(mask_view(r).contains(b) == mask_has(r, b));
            }
        }
        r
    }
}

impl<VBase, VOverlay, Base, Overlay, Mapping> ZipperMoving for OverlayZipper<VBase, VOverlay, Base, Overlay, Mapping> where
    Base: ZipperValues<VBase> + ZipperMoving + ZipperPath,
    Overlay: ZipperValues<VOverlay> + ZipperMoving + ZipperPath,
    Mapping: OverlayMapping<VBase, VOverlay>,
 {
    fn at_root(&self) -> (r: bool) {
        self.overlay.at_root() || self.base.at_root()
    }

    fn reset(&mut self) {
        self.overlay.reset();
        self.base.reset();
    }

    fn descend_to(&mut self, k: &[u8]) -> (r: bool) {
        let ro = self.overlay.descend_to(k);
        let rb = self.base.descend_to(k);
        ro || rb
    }

    fn descend_to_existing(&mut self, k: &[u8]) -> (n: usize) {
        let ghost f = self.focus();
        let ghost ob = self.base;
        let ghost oo = self.overlay;
        let depth_b = self.base.descend_to_existing(k);
        let depth_o = self.overlay.descend_to_existing(k);
        if depth_b > depth_o {
            let part = vstd::slice::slice_subrange(k, depth_o, depth_b);
            self.overlay.descend_to(part);
            proof {
                assert(k@.take(depth_o as int) + part@ =~= k@.take(depth_b as int));
                assert((f + k@.take(depth_o as int)) + part@ =~= f + k@.take(depth_b as int));
                if depth_b < k@.len() && oo.paths().contains(f + k@.take(depth_b + 1)) {
                    oo.lemma_prefix_closed(f + k@.take(depth_b + 1), f.len() + depth_o + 1);
                    assert((f + k@.take(depth_b + 1)).take(f.len() + depth_o + 1) =~= f + k@.take(depth_o + 1));
                }
            }
            depth_b
        } else if depth_o > depth_b {
            let part = vstd::slice::slice_subrange(k, depth_b, depth_o);
            self.base.descend_to(part);
            proof {
                assert(k@.take(depth_b as int) + part@ =~= k@.take(depth_o as int));
                assert((f + k@.take(depth_b as int)) + part@ =~= f + k@.take(depth_o as int));
                if depth_o < k@.len() && ob.paths().contains(f + k@.take(depth_o + 1)) {
                    ob.lemma_prefix_closed(f + k@.take(depth_o + 1), f.len() + depth_b + 1);
                    assert((f + k@.take(depth_o + 1)).take(f.len() + depth_b + 1) =~= f + k@.take(depth_b + 1));
                }
            }
            depth_o
        } else {
            depth_b
        }
    }

    fn descend_to_byte(&mut self, k: u8) -> (r: bool) {
        let key = [k];
        let rb = self.base.descend_to(key.as_slice());
        let ro = self.overlay.descend_to(key.as_slice());
        assert(key@ =~= seq![k]);
        rb || ro
    }

    fn descend_indexed_byte(&mut self, idx: usize) -> (r: Option<u8>) {
        let child_mask = self.child_mask();
        proof {
            lemma_mask_count_children(child_mask, self.paths(), self.focus(), 256);
        }
        let byte = byte_mask_indexed_bit(child_mask, idx);
        match byte {
            Some(b) => {
                proof {
                    lemma_mask_count_children(child_mask, self.paths(), self.focus(), b as nat);
                }
                self.descend_to_byte(b);
                Some(b)
            },
            None => None,
        }
    }

    fn descend_first_byte(&mut self) -> (r: Option<u8>) {
        self.descend_indexed_byte(0)
    }

    /// Moves as the trait's default does, stepping through the union of the two tries: it moves
    /// exactly when the focus has one child.
    fn descend_until(&mut self, dst: &mut Vec<u8>) -> (r: bool)
        ensures
            r == (count_children(old(self).paths(), old(self).focus(), 256) == 1),
    {
        let ghost f = self.focus();
        let ghost od = dst@;
        let ghost mut d: Seq<u8> = Seq::empty();
        let mut n: usize = 0;
        assert(f + d =~= f);
        assert(od + d =~= od);
        loop
            invariant
                old(self).inv(),
                self.inv(),
                f == old(self).focus(),
                od == old(dst)@,
                self.paths() == old(self).paths() && self.vals() == old(self).vals(),
                self.focus() == f + d,
                dst@ == od + d,
                n == d.len(),
                d.len() > 0 ==> count_children(self.paths(), f, 256) == 1,
                d.len() > 0 ==> count_children(self.paths(), f, d[0] as nat) == 0,
                d.len() > 0 ==> !self.vals().contains(f + d),
                forall|j: int| 0 < j <= d.len() ==> #[trigger] self.paths().contains(f + d.take(j)),
                forall|j: int| 0 < j < d.len() ==> count_children(self.paths(), #[trigger] (f + d.take(j)), 256) == 1
                    && !self.vals().contains(f + d.take(j)),
            decreases usize::MAX - n,
        {
            if n == usize::MAX || self.child_count() != 1 {
                proof {
                    assert(f + d.take(d.len() as int) =~= f + d);
                    if n == 0 {
                        assert(f + d =~= f);
                    }
                }
                return n > 0;
            }
            let ghost before = d;
            let b = self.descend_first_byte();
            match b {
                Some(c) => {
                    dst.push(c);
                    proof {
                        d = before.push(c);
                        assert(f + d =~= (f + before).push(c));
                        assert(od + d =~= (od + before).push(c));
                        assert(d.take(d.len() as int) =~= d);
                        assert(d.take(before.len() as int) =~= before);
                        assert forall|j: int| 0 < j <= d.len() implies #[trigger] self.paths().contains(f + d.take(j)) by {
                            if j < d.len() {
                                assert(d.take(j) =~= before.take(j));
                            }
                        }
                        assert forall|j: int| 0 < j < d.len() implies count_children(self.paths(), #[trigger] (f + d.take(j)), 256) == 1
                            && !self.vals().contains(f + d.take(j)) by {
                            assert(d.take(j) =~= before.take(j));
                            if j == before.len() {
                                assert(before.take(j) =~= before);
                            }
                        }
                        if before.len() > 0 {
                            assert(d[0] == before[0]);
                        } else {
                            assert(f + before =~= f);
                        }
                    }
                    n += 1;
                    if self.is_val() {
                        return true;
                    }
                },
                None => {
                    return n > 0;
                },
            }
        }
    }

    fn ascend(&mut self, steps: usize) -> (r: Result<(), usize>) {
        let _ = self.base.ascend(steps);
        self.overlay.ascend(steps)
    }

    fn ascend_byte(&mut self) -> (r: bool) {
        self.ascend(1).is_ok()
    }

    fn ascend_until(&mut self) -> (r: Option<usize>) {
        let ghost f = self.focus();
        let depth = self.path().len();
        if depth == 0 {
            return None;
        }
        let mut n: usize = 0;
        loop
            invariant
                old(self).inv(),
                self.inv(),
                f == old(self).focus(),
                f.len() > 0,
                self.paths() == old(self).paths() && self.vals() == old(self).vals(),
                n < f.len(),
                f.len() == depth,
                self.focus() == f.take(f.len() - n),
                forall|j: int| f.len() - n <= j < f.len()
                    ==> !stops_ascent(old(self).paths(), old(self).vals(), #[trigger] f.take(j), true),
            decreases f.len() - n,
        {
            let ghost before = self.focus();
            self.ascend_byte();
            n += 1;
            assert(before.drop_last() =~= f.take(f.len() - n));
            if self.at_root() || self.is_val() || self.child_count() > 1 {
                return Some(n);
            }
        }
    }

    fn ascend_until_branch(&mut self) -> (r: Option<usize>) {
        let ghost f = self.focus();
        let depth = self.path().len();
        if depth == 0 {
            return None;
        }
        let mut n: usize = 0;
        loop
            invariant
                old(self).inv(),
                self.inv(),
                f == old(self).focus(),
                f.len() > 0,
                self.paths() == old(self).paths() && self.vals() == old(self).vals(),
                n < f.len(),
                f.len() == depth,
                self.focus() == f.take(f.len() - n),
                forall|j: int| f.len() - n <= j < f.len()
                    ==> !stops_ascent(old(self).paths(), old(self).vals(), #[trigger] f.take(j), false),
            decreases f.len() - n,
        {
            let ghost before = self.focus();
            self.ascend_byte();
            n += 1;
            assert(before.drop_last() =~= f.take(f.len() - n));
            if self.at_root() || self.child_count() > 1 {
                return Some(n);
            }
        }
    }

    fn to_next_sibling_byte(&mut self) -> (r: Option<u8>) {
        self.to_sibling(true)
    }

    fn to_prev_sibling_byte(&mut self) -> (r: Option<u8>) {
        self.to_sibling(false)
    }
}

impl<VBase, VOverlay, Base, Overlay, Mapping> ZipperPath for OverlayZipper<VBase, VOverlay, Base, Overlay, Mapping> where
    Base: ZipperValues<VBase> + ZipperMoving + ZipperPath,
    Overlay: ZipperValues<VOverlay> + ZipperMoving + ZipperPath,
    Mapping: OverlayMapping<VBase, VOverlay>,
 {
    fn path(&self) -> (r: &[u8]) {
        self.overlay.path()
    }
}

impl<VBase, VOverlay, Base, Overlay, Mapping> ZipperValues<VOverlay> for OverlayZipper<VBase, VOverlay, Base, Overlay, Mapping> where
    Base: ZipperValues<VBase> + ZipperMoving + ZipperPath,
    Overlay: ZipperValues<VOverlay> + ZipperMoving + ZipperPath,
    Mapping: OverlayMapping<VBase, VOverlay>,
 {
    open spec fn value_at(&self, p: Seq<u8>) -> Option<VOverlay> {
        if self.overlay().vals().contains(p) {
            self.overlay().value_at(p)
        } else if self.base().vals().contains(p) {
            match self.base().value_at(p) {
                Some(v) => Some(self.mapping().maps(v)),
                None => None,
            }
        } else {
            None
        }
    }

    fn val(&self) -> (r: Option<&VOverlay>)
        ensures
            self.overlay().vals().contains(self.focus()) ==> (r matches Some(v)
                && self.overlay().value_at(self.focus()) == Some(*v)),
            !self.overlay().vals().contains(self.focus()) && self.base().vals().contains(self.focus())
                ==> (r matches Some(v) && (self.base().value_at(self.focus()) matches Some(w) && *v == self.mapping().maps(w))),
            !self.overlay().vals().contains(self.focus()) && !self.base().vals().contains(self.focus()) ==> r is None,
    {
        if let Some(val) = self.overlay.val() {
            Some(val)
        } else if let Some(val) = self.base.val() {
            Some(self.mapping.map(val))
        } else {
            None
        }
    }
}

} // verus!
