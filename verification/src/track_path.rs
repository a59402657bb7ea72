//! A wrapper that keeps the path of a zipper that does not keep one itself.
//!
//! This allows nested virtual zippers that don't maintain their own path
//! buffer, so that they don't repeat the work of copying paths.

use vstd::prelude::*;
use crate::utils::mask_has;
use crate::zipper::{
    count_children, descent_ends, stops_ascent, straight_descent, Zipper, ZipperMoving, ZipperPath, ZipperAbsolutePath, ZipperValues,
};

verus! {

/// Wraps a zipper and records the path of its focus, after an origin path.
pub struct TrackPath<Z> {
    zipper: Z,
    path: Vec<u8>,
    origin_len: usize,
}

/// After extending a buffer that held `a` by the bytes of `k`, it holds `a + k`.
pub(crate) proof fn lemma_extended(old_buf: Seq<u8>, new_buf: Seq<u8>, k: Seq<u8>)
    requires
        new_buf.len() == old_buf.len() + k.len(),
        forall|i: int|
            #![trigger new_buf[i]]
            0 <= i < new_buf.len() ==> if i < old_buf.len() {
                new_buf[i] == old_buf[i]
            } else {
                vstd::pervasive::cloned::<u8>(k[i - old_buf.len()], new_buf[i])
            },
    ensures
        new_buf == old_buf + k,
{
    assert forall|i: int| 0 <= i < new_buf.len() implies new_buf[i] == (old_buf + k)[i] by {
        if i >= old_buf.len() {
            assert(vstd::pervasive::cloned::<u8>(k[i - old_buf.len()], new_buf[i]));
        }
    }
    assert(new_buf =~= old_buf + k);
}

impl<Z: ZipperMoving> TrackPath<Z> {
    /// The wrapped zipper.
    pub closed spec fn inner(&self) -> Z {
        self.zipper
    }

    /// Wraps `zipper`, moved to its root, with an empty origin.
    pub fn new(zipper: Z) -> (r: Self)
        requires
            zipper.inv(),
        ensures
            r.inv(),
            r.focus() == Seq::<u8>::empty(),
            r.root_prefix() == Seq::<u8>::empty(),
            r.paths() == zipper.paths(),
            r.vals() == zipper.vals(),
    {
        let mut zipper = zipper;
        zipper.reset();
        let r = Self { zipper, path: Vec::new(), origin_len: 0 };
        assert(r.path@.skip(0) =~= r.zipper.focus());
        r
    }

    /// Wraps `zipper`, moved to its root, whose root lies at path `origin`.
    pub fn with_origin(zipper: Z, origin: &[u8]) -> (r: Self)
        requires
            zipper.inv(),
        ensures
            r.inv(),
            r.focus() == Seq::<u8>::empty(),
            r.root_prefix() == origin@,
            r.paths() == zipper.paths(),
            r.vals() == zipper.vals(),
    {
        let mut zipper = zipper;
        zipper.reset();
        let path = vstd::slice::slice_to_vec(origin);
        let r = Self { zipper, path, origin_len: origin.len() };
        assert(r.path@.skip(origin@.len() as int) =~= r.zipper.focus());
        assert(r.path@.take(origin@.len() as int) =~= origin@);
        r
    }

    /// Reserves room for `path_len` more bytes of path; changes nothing else.
    pub fn reserve_buffers(&mut self, path_len: usize, _stack: usize)
        requires
            old(self).inv(),
        ensures
            final(self).inv(),
            final(self).focus() == old(self).focus(),
            final(self).root_prefix() == old(self).root_prefix(),
            final(self).inner() == old(self).inner(),
    {
        self.path.reserve(path_len);
    }

    /// Prepares the buffers; a track-path zipper needs no preparation.
    pub fn prepare_buffers(&mut self)
        requires
            old(self).inv(),
        ensures
            *final(self) == *old(self),
    {
    }
}

impl<Z: ZipperMoving> Zipper for TrackPath<Z> {
    open spec fn inv(&self) -> bool {
        self.tracks()
    }

    open spec fn focus(&self) -> Seq<u8> {
        self.inner().focus()
    }

    open spec fn paths(&self) -> Set<Seq<u8>> {
        self.inner().paths()
    }

    open spec fn vals(&self) -> Set<Seq<u8>> {
        self.inner().vals()
    }

    proof fn lemma_prefix_closed(&self, p: Seq<u8>, n: int) {
        self.inner().lemma_prefix_closed(p, n);
    }

    fn path_exists(&self) -> (r: bool) {
        self.zipper.path_exists()
    }

    fn is_val(&self) -> (r: bool) {
        self.zipper.is_val()
    }

    fn child_count(&self) -> (r: usize) {
        self.zipper.child_count()
    }

    fn child_mask(&self) -> (r: [u64; 4]) {
        self.zipper.child_mask()
    }
}

impl<Z: ZipperMoving> TrackPath<Z> {
    /// The recorded path is the origin followed by the inner zipper's focus.
    pub closed spec fn tracks(&self) -> bool {
        &&& self.zipper.inv()
        &&& self.origin_len <= self.path@.len()
        &&& self.path@.skip(self.origin_len as int) == self.zipper.focus()
    }

    /// The origin path.
    pub closed spec fn origin(&self) -> Seq<u8> {
        self.path@.take(self.origin_len as int)
    }

    proof fn lemma_path_split(&self)
        requires
            self.tracks(),
        ensures
            self.path@ == self.origin() + self.zipper.focus(),
    {
        assert(self.path@ =~= self.path@.take(self.origin_len as int) + self.path@.skip(self.origin_len as int));
    }
}


impl<Z: ZipperMoving> ZipperMoving for TrackPath<Z> {
    fn at_root(&self) -> (r: bool) {
        self.zipper.at_root()
    }

    fn reset(&mut self)
        ensures
            final(self).root_prefix() == old(self).root_prefix(),
    {
        proof { self.lemma_path_split(); }
        self.zipper.reset();
        self.path.truncate(self.origin_len);
        assert(self.path@.skip(self.origin_len as int) =~= Seq::<u8>::empty());
    }

    fn descend_to(&mut self, k: &[u8]) -> (r: bool)
        ensures
            final(self).root_prefix() == old(self).root_prefix(),
    {
        proof { self.lemma_path_split(); }
        let ghost op = self.path@;
        self.path.extend_from_slice(k);
        proof {
            lemma_extended(op, self.path@, k@);
        }
        let r = self.zipper.descend_to(k);
        assert(self.path@.skip(self.origin_len as int) =~= self.zipper.focus());
        r
    }

    fn descend_to_existing(&mut self, k: &[u8]) -> (n: usize)
        ensures
            final(self).root_prefix() == old(self).root_prefix(),
    {
        proof { self.lemma_path_split(); }
        let n = self.zipper.descend_to_existing(k);
        let ghost op = self.path@;
        let part = vstd::slice::slice_subrange(k, 0, n);
        self.path.extend_from_slice(part);
        proof {
            lemma_extended(op, self.path@, part@);
            assert(part@ =~= k@.take(n as int));
        }
        assert(self.path@.skip(self.origin_len as int) =~= self.zipper.focus());
        n
    }

    fn descend_to_val(&mut self, k: &[u8]) -> (n: usize)
        ensures
            final(self).root_prefix() == old(self).root_prefix(),
    {
        proof { self.lemma_path_split(); }
        let n = self.zipper.descend_to_val(k);
        let ghost op = self.path@;
        let part = vstd::slice::slice_subrange(k, 0, n);
        self.path.extend_from_slice(part);
        proof {
            lemma_extended(op, self.path@, part@);
            assert(part@ =~= k@.take(n as int));
        }
        assert(self.path@.skip(self.origin_len as int) =~= self.zipper.focus());
        n
    }

    fn descend_to_byte(&mut self, k: u8) -> (r: bool)
        ensures
            final(self).root_prefix() == old(self).root_prefix(),
    {
        proof { self.lemma_path_split(); }
        self.path.push(k);
        let r = self.zipper.descend_to_byte(k);
        assert(self.path@.skip(self.origin_len as int) =~= self.zipper.focus());
        r
    }

    fn descend_indexed_byte(&mut self, child_idx: usize) -> (r: Option<u8>)
        ensures
            final(self).root_prefix() == old(self).root_prefix(),
    {
        proof { self.lemma_path_split(); }
        let byte = self.zipper.descend_indexed_byte(child_idx);
        match byte {
            Some(b) => {
                self.path.push(b);
                assert(self.path@.skip(self.origin_len as int) =~= self.zipper.focus());
                Some(b)
            },
            None => None,
        }
    }

    fn descend_first_byte(&mut self) -> (r: Option<u8>)
        ensures
            final(self).root_prefix() == old(self).root_prefix(),
    {
        proof { self.lemma_path_split(); }
        let byte = self.zipper.descend_first_byte();
        match byte {
            Some(b) => {
                self.path.push(b);
                assert(self.path@.skip(self.origin_len as int) =~= self.zipper.focus());
                Some(b)
            },
            None => None,
        }
    }

    fn descend_until(&mut self, dst: &mut Vec<u8>) -> (r: bool)
        ensures
            final(self).root_prefix() == old(self).root_prefix(),
    {
        proof { self.lemma_path_split(); }
        let orig_len = self.path.len();
        let ghost op = self.path@;
        let ghost of = self.zipper.focus();
        let ghost of_paths = self.zipper.paths();
        let ghost of_vals = self.zipper.vals();
        let descended = self.zipper.descend_until(&mut self.path);
        let ghost d = self.path@.skip(orig_len as int);
        proof {
            let d0 = choose|d0: Seq<u8>|
                {
                    &&& self.zipper.focus() == of + d0
                    &&& self.path@ == op + d0
                    &&& descended == (d0.len() > 0)
                    &&& straight_descent(of_paths, of_vals, of, d0)
                    &&& descent_ends(of_paths, of_vals, of, d0)
                };
            assert(d0 =~= d);
        }
        let ghost od = dst@;
        let fresh = vstd::slice::slice_subrange(self.path.as_slice(), orig_len, self.path.len());
        dst.extend_from_slice(fresh);
        proof {
            lemma_extended(od, dst@, fresh@);
            assert(fresh@ =~= d);
            assert(self.path@.skip(self.origin_len as int) =~= self.zipper.focus());
        }
        descended
    }

    fn ascend(&mut self, steps: usize) -> (r: Result<(), usize>)
        ensures
            final(self).root_prefix() == old(self).root_prefix(),
    {
        proof { self.lemma_path_split(); }
        let rv = self.zipper.ascend(steps);
        let ascended = match rv {
            Ok(()) => steps,
            Err(remaining) => steps - remaining,
        };
        let orig_len = self.path.len();
        self.path.truncate(orig_len - ascended);
        assert(self.path@.skip(self.origin_len as int) =~= self.zipper.focus());
        rv
    }

    fn ascend_byte(&mut self) -> (r: bool)
        ensures
            final(self).root_prefix() == old(self).root_prefix(),
    {
        proof { self.lemma_path_split(); }
        if !self.zipper.ascend_byte() {
            return false;
        }
        self.path.pop();
        assert(self.path@.skip(self.origin_len as int) =~= self.zipper.focus());
        true
    }

    fn ascend_until(&mut self) -> (r: Option<usize>)
        ensures
            final(self).root_prefix() == old(self).root_prefix(),
    {
        proof { self.lemma_path_split(); }
        let asc = self.zipper.ascend_until();
        match asc {
            Some(ascended) => {
                let orig_len = self.path.len();
                self.path.truncate(orig_len - ascended);
                assert(self.path@.skip(self.origin_len as int) =~= self.zipper.focus());
                Some(ascended)
            },
            None => None,
        }
    }

    fn ascend_until_branch(&mut self) -> (r: Option<usize>)
        ensures
            final(self).root_prefix() == old(self).root_prefix(),
    {
        proof { self.lemma_path_split(); }
        let asc = self.zipper.ascend_until_branch();
        match asc {
            Some(ascended) => {
                let orig_len = self.path.len();
                self.path.truncate(orig_len - ascended);
                assert(self.path@.skip(self.origin_len as int) =~= self.zipper.focus());
                Some(ascended)
            },
            None => None,
        }
    }

    fn to_next_sibling_byte(&mut self) -> (r: Option<u8>)
        ensures
            final(self).root_prefix() == old(self).root_prefix(),
    {
        proof { self.lemma_path_split(); }
        let byte = self.zipper.to_next_sibling_byte();
        match byte {
            Some(b) => {
                let last = self.path.len() - 1;
                self.path.set(last, b);
                assert(self.path@.skip(self.origin_len as int) =~= self.zipper.focus());
                Some(b)
            },
            None => None,
        }
    }

    fn to_prev_sibling_byte(&mut self) -> (r: Option<u8>)
        ensures
            final(self).root_prefix() == old(self).root_prefix(),
    {
        proof { self.lemma_path_split(); }
        let byte = self.zipper.to_prev_sibling_byte();
        match byte {
            Some(b) => {
                let last = self.path.len() - 1;
                self.path.set(last, b);
                assert(self.path@.skip(self.origin_len as int) =~= self.zipper.focus());
                Some(b)
            },
            None => None,
        }
    }
}

impl<Z: ZipperMoving> ZipperPath for TrackPath<Z> {
    fn path(&self) -> (r: &[u8]) {
        vstd::slice::slice_subrange(self.path.as_slice(), self.origin_len, self.path.len())
    }
}

impl<Z: ZipperMoving> ZipperAbsolutePath for TrackPath<Z> {
    open spec fn root_prefix(&self) -> Seq<u8> {
        self.origin()
    }

    fn origin_path(&self) -> (r: &[u8]) {
        proof { self.lemma_path_split(); }
        self.path.as_slice()
    }

    fn root_prefix_path(&self) -> (r: &[u8]) {
        vstd::slice::slice_subrange(self.path.as_slice(), 0, self.origin_len)
    }
}

impl<V, Z: ZipperMoving + ZipperValues<V>> ZipperValues<V> for TrackPath<Z> {
    open spec fn value_at(&self, p: Seq<u8>) -> Option<V> {
        self.inner().value_at(p)
    }

    fn val(&self) -> (r: Option<&V>) {
        self.zipper.val()
    }
}

} // verus!
