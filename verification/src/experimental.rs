//! A zipper over the full trie, in which every path exists and holds a value.

use vstd::prelude::*;
use crate::utils::{bit, mask_has};
use crate::zipper::{count_children, stops_ascent, straight_descent, Zipper, ZipperMoving, ZipperPath};

verus! {

/// The path length that buffers are prepared for.
pub const EXPECTED_PATH_LEN: usize = 64;

/// A zipper over the trie that holds every path.
pub struct FullZipper {
    path: Vec<u8>,
}

/// Every byte is a child in the full trie.
proof fn lemma_count_full(p: Seq<u8>, n: nat)
    ensures
        count_children(Set::<Seq<u8>>::full(), p, n) == n,
    decreases n,
{
    if n > 0 {
        lemma_count_full(p, (n - 1) as nat);
    }
}

impl FullZipper {
    /// A zipper at the root of the full trie.
    pub fn new() -> (r: Self)
        ensures
            r.focus() == Seq::<u8>::empty(),
    {
        FullZipper { path: Vec::new() }
    }

    /// The number of values below the focus, saturated to half of `usize::MAX`.
    pub fn val_count(&self) -> (r: usize)
        ensures
            r == usize::MAX / 2,
    {
        usize::MAX / 2
    }

    /// Reserves room for the expected path length.
    pub fn prepare_buffers(&mut self)
        ensures
            final(self).focus() == old(self).focus(),
    {
        self.reserve_buffers(EXPECTED_PATH_LEN, 0)
    }

    /// Reserves room for `path_len` more bytes of path.
    pub fn reserve_buffers(&mut self, path_len: usize, _stack_depth: usize)
        ensures
            final(self).focus() == old(self).focus(),
    {
        self.path.reserve(path_len)
    }

    /// Replaces the last byte of the focus by the next (`next`) or previous byte, if there is one.
    fn to_sibling(&mut self, next: bool) -> (r: Option<u8>)
        ensures
            r is None ==> final(self).focus() == old(self).focus(),
            r is None ==> old(self).focus().len() == 0 || (next && old(self).focus().last() == 255) || (!next
                && old(self).focus().last() == 0),
            r matches Some(b) ==> {
                &&& old(self).focus().len() > 0
                &&& b == if next { old(self).focus().last() + 1 } else { old(self).focus().last() - 1 }
                &&& final(self).focus() == old(self).focus().drop_last().push(b)
            },
    {
        if self.path.len() == 0 {
            return None;
        }
        let i = self.path.len() - 1;
        let last = self.path[i];
        if next {
            if last != 255 {
                self.path.set(i, last + 1);
                assert(self.path@ =~= old(self).path@.drop_last().push((last + 1) as u8));
                Some(last + 1)
            } else {
                None
            }
        } else {
            if last != 0 {
                self.path.set(i, last - 1);
                assert(self.path@ =~= old(self).path@.drop_last().push((last - 1) as u8));
                Some(last - 1)
            } else {
                None
            }
        }
    }
}

impl Zipper for FullZipper {
    open spec fn inv(&self) -> bool {
        true
    }

    closed spec fn focus(&self) -> Seq<u8> {
        self.path@
    }

    open spec fn paths(&self) -> Set<Seq<u8>> {
        Set::full()
    }

    open spec fn vals(&self) -> Set<Seq<u8>> {
        Set::full()
    }

    proof fn lemma_prefix_closed(&self, p: Seq<u8>, n: int) {
    }

    fn path_exists(&self) -> (r: bool) {
        true
    }

    fn is_val(&self) -> (r: bool) {
        true
    }

    fn child_count(&self) -> (r: usize) {
        proof { lemma_count_full(self.focus(), 256); }
        256
    }

    fn child_mask(&self) -> (r: [u64; 4]) {
        let r = [!0u64, !0u64, !0u64, !0u64];
        proof {
            assert forall|b: u8| #[trigger] mask_has(r, b) by {
                let i = (b % 64) as u64;
                assert(!0u64 & (1u64 << i) != 0) by (bit_vector)
                    requires
                        i < 64,
                ;
            }
        }
        r
    }
}

impl ZipperMoving for FullZipper {
    fn at_root(&self) -> (r: bool) {
        self.path.len() == 0
    }

    fn reset(&mut self) {
        self.path.clear();
    }

    fn descend_to(&mut self, k: &[u8]) -> (r: bool) {
        let mut i: usize = 0;
        while i < k.len()
            invariant
                i <= k@.len(),
                self.path@ == old(self).path@ + k@.take(i as int),
            decreases k@.len() - i,
        {
            self.path.push(k[i]);
            assert(old(self).path@ + k@.take(i + 1) =~= (old(self).path@ + k@.take(i as int)).push(k@[i as int]));
            i += 1;
        }
        assert(k@.take(k@.len() as int) =~= k@);
        true
    }

    fn descend_to_byte(&mut self, k: u8) -> (r: bool) {
        self.path.push(k);
        true
    }

    fn descend_indexed_byte(&mut self, idx: usize) -> (r: Option<u8>) {
        proof {
            lemma_count_full(old(self).focus(), 256);
        }
        if idx >= 256 {
            return None;
        }
        let b = idx as u8;
        self.path.push(b);
        proof {
            lemma_count_full(old(self).focus(), b as nat);
        }
        Some(b)
    }

    fn descend_first_byte(&mut self) -> (r: Option<u8>) {
        proof {
            lemma_count_full(old(self).focus(), 0);
        }
        self.path.push(0);
        Some(0)
    }

    /// Every point of the full trie branches, so this steps to the smallest child, byte 0.
    fn descend_until(&mut self, dst: &mut Vec<u8>) -> (r: bool)
        ensures
            r,
            final(self).focus() == old(self).focus().push(0),
            final(dst)@ == old(dst)@.push(0),
    {
        self.path.push(0);
        dst.push(0);
        assert(self.path@ == old(self).path@ + seq![0u8]);
        assert(dst@ == old(dst)@ + seq![0u8]);
        proof {
            let d = seq![0u8];
            let f = old(self).focus();
            lemma_count_full(f, 0);
            lemma_count_full(f + d, 256);
            assert(d.take(1) =~= d);
            assert(straight_descent(old(self).paths(), old(self).vals(), f, d));
        }
        true
    }

    fn ascend(&mut self, steps: usize) -> (r: Result<(), usize>) {
        if steps > self.path.len() {
            let old_depth = self.path.len();
            self.path.clear();
            Err(steps - old_depth)
        } else {
            let n = self.path.len() - steps;
            self.path.truncate(n);
            Ok(())
        }
    }

    fn ascend_byte(&mut self) -> (r: bool) {
        self.path.pop().is_some()
    }

    fn ascend_until(&mut self) -> (r: Option<usize>) {
        if self.path.len() == 0 {
            return None;
        }
        self.path.pop();
        assert(old(self).focus().take(old(self).focus().len() - 1) =~= self.focus());
        Some(1)
    }

    fn ascend_until_branch(&mut self) -> (r: Option<usize>) {
        if self.path.len() == 0 {
            return None;
        }
        self.path.pop();
        proof {
            lemma_count_full(self.focus(), 256);
        }
        assert(old(self).focus().take(old(self).focus().len() - 1) =~= self.focus());
        Some(1)
    }

    fn to_next_sibling_byte(&mut self) -> (r: Option<u8>) {
        self.to_sibling(true)
    }

    fn to_prev_sibling_byte(&mut self) -> (r: Option<u8>) {
        self.to_sibling(false)
    }
}

impl ZipperPath for FullZipper {
    fn path(&self) -> (r: &[u8]) {
        self.path.as_slice()
    }
}

} // verus!
