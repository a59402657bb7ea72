//! Zippers: cursors that move through a trie of byte paths.
//!
//! A zipper is described by the trie it moves in (which paths exist, which
//! hold values) and by its focus, the path from the zipper's root to the
//! position it is at.  Moving never changes the trie.

use vstd::prelude::*;
use crate::utils::{mask_has, mask_count_below};

verus! {

/// The number of bytes `b < n` such that `p + [b]` is one of `paths`.
pub open spec fn count_children(paths: Set<Seq<u8>>, p: Seq<u8>, n: nat) -> nat
    decreases n,
{
    if n == 0 {
        0
    } else {
        count_children(paths, p, (n - 1) as nat) + if paths.contains(p.push((n - 1) as u8)) { 1nat } else { 0nat }
    }
}

/// `p` is a stopping point when ascending: the root, a value (when `at_values`), or a branch.
pub open spec fn stops_ascent(paths: Set<Seq<u8>>, vals: Set<Seq<u8>>, p: Seq<u8>, at_values: bool) -> bool {
    p.len() == 0 || (at_values && vals.contains(p)) || count_children(paths, p, 256) > 1
}

/// A mask that marks the children of `p` counts them as [`count_children`] does.
pub proof fn lemma_mask_count_children(m: [u64; 4], paths: Set<Seq<u8>>, p: Seq<u8>, n: nat)
    requires
        forall|b: u8| #[trigger] mask_has(m, b) == paths.contains(p.push(b)),
        n <= 256,
    ensures
        mask_count_below(m, n) == count_children(paths, p, n),
    decreases n,
{
    if n > 0 {
        lemma_mask_count_children(m, paths, p, (n - 1) as nat);
        assert(mask_has(m, (n - 1) as u8) == paths.contains(p.push((n - 1) as u8)));
    }
}

/// The bytes `d` lead from `f` down a path of the trie: they start with the smallest child of
/// `f`, every point reached exists, and every point passed before the last has exactly one
/// child and holds no value.
pub open spec fn straight_descent(paths: Set<Seq<u8>>, vals: Set<Seq<u8>>, f: Seq<u8>, d: Seq<u8>) -> bool {
    &&& d.len() > 0 ==> count_children(paths, f, d[0] as nat) == 0
    &&& forall|j: int| 0 < j <= d.len() ==> #[trigger] paths.contains(f + d.take(j))
    &&& forall|j: int| 0 < j < d.len() ==> count_children(paths, #[trigger] (f + d.take(j)), 256) == 1
        && !vals.contains(f + d.take(j))
}

/// The bytes `d` end a descent from `f`: unless a machine limit stopped it, the point reached
/// holds a value (after at least one step), has no child, or branches.
pub open spec fn descent_ends(paths: Set<Seq<u8>>, vals: Set<Seq<u8>>, f: Seq<u8>, d: Seq<u8>) -> bool {
    d.len() < usize::MAX ==> count_children(paths, f + d, 256) != 1 || (d.len() > 0 && vals.contains(f + d))
}

/// No child below `n` is counted as none.
proof fn lemma_count_zero(a: Set<Seq<u8>>, q: Seq<u8>, n: nat, c: u8)
    requires
        n <= 256,
        count_children(a, q, n) == 0,
        c < n,
    ensures
        !a.contains(q.push(c)),
    decreases n,
{
    if c < n - 1 {
        lemma_count_zero(a, q, (n - 1) as nat, c);
    } else {
        assert(c == (n - 1) as u8);
    }
}

/// Two different children below `n` are counted as at least two.
proof fn lemma_count_two(a: Set<Seq<u8>>, q: Seq<u8>, n: nat, c1: u8, c2: u8)
    requires
        n <= 256,
        c1 < n,
        c2 < n,
        a.contains(q.push(c1)),
        a.contains(q.push(c2)),
    ensures
        count_children(a, q, n) >= 1,
        c1 != c2 ==> count_children(a, q, n) >= 2,
    decreases n,
{
    let top = (n - 1) as u8;
    if c1 < n - 1 && c2 < n - 1 {
        lemma_count_two(a, q, (n - 1) as nat, c1, c2);
    } else if c1 < n - 1 {
        assert(c2 == top);
        lemma_count_two(a, q, (n - 1) as nat, c1, c1);
    } else if c2 < n - 1 {
        assert(c1 == top);
        lemma_count_two(a, q, (n - 1) as nat, c2, c2);
    } else {
        assert(c1 == top && c2 == top);
    }
}

/// Two descents from the same point agree on their first `i` bytes.
proof fn lemma_descents_agree(paths: Set<Seq<u8>>, vals: Set<Seq<u8>>, f: Seq<u8>, d1: Seq<u8>, d2: Seq<u8>, i: int)
    requires
        straight_descent(paths, vals, f, d1),
        straight_descent(paths, vals, f, d2),
        0 <= i <= d1.len(),
        i <= d2.len(),
    ensures
        d1.take(i) == d2.take(i),
    decreases i,
{
    if i == 1 {
        let (a, b) = (d1[0], d2[0]);
        assert(f + d1.take(1) =~= f.push(a));
        assert(f + d2.take(1) =~= f.push(b));
        assert(paths.contains(f + d1.take(1)));
        assert(paths.contains(f + d2.take(1)));
        if a < b {
            lemma_count_zero(paths, f, b as nat, a);
        } else if b < a {
            lemma_count_zero(paths, f, a as nat, b);
        }
        assert(d1.take(1) =~= d2.take(1));
    } else if i > 1 {
        lemma_descents_agree(paths, vals, f, d1, d2, i - 1);
        let p = f + d1.take(i - 1);
        assert(f + d2.take(i - 1) == p);
        assert(count_children(paths, f + d1.take(i - 1), 256) == 1);
        assert(f + d1.take(i) =~= p.push(d1[i - 1]));
        assert(f + d2.take(i) =~= p.push(d2[i - 1]));
        assert(paths.contains(f + d1.take(i)));
        assert(paths.contains(f + d2.take(i)));
        lemma_count_two(paths, p, 256, d1[i - 1], d2[i - 1]);
        assert(d1.take(i) =~= d1.take(i - 1).push(d1[i - 1]));
        assert(d2.take(i) =~= d2.take(i - 1).push(d2[i - 1]));
    } else {
        assert(d1.take(0) =~= d2.take(0));
    }
}

/// What [`ZipperMoving::descend_until`] moves along is fixed by the trie: two descents from the
/// same point that both move, follow single-child points without values and end where
/// [`descent_ends`] says (each shorter than `usize::MAX`) are the same bytes.
pub proof fn law_descent_determined(paths: Set<Seq<u8>>, vals: Set<Seq<u8>>, f: Seq<u8>, d1: Seq<u8>, d2: Seq<u8>)
    requires
        straight_descent(paths, vals, f, d1),
        straight_descent(paths, vals, f, d2),
        descent_ends(paths, vals, f, d1),
        descent_ends(paths, vals, f, d2),
        d1.len() > 0,
        d2.len() > 0,
        d1.len() < usize::MAX,
        d2.len() < usize::MAX,
    ensures
        d1 == d2,
{
    if d1.len() < d2.len() {
        lemma_descents_agree(paths, vals, f, d1, d2, d1.len() as int);
        assert(d1.take(d1.len() as int) =~= d1);
        assert(f + d2.take(d1.len() as int) == f + d1);
        assert(count_children(paths, f + d2.take(d1.len() as int), 256) == 1);
    } else if d2.len() < d1.len() {
        lemma_descents_agree(paths, vals, f, d1, d2, d2.len() as int);
        assert(d2.take(d2.len() as int) =~= d2);
        assert(f + d1.take(d2.len() as int) == f + d2);
        assert(count_children(paths, f + d1.take(d2.len() as int), 256) == 1);
    } else {
        lemma_descents_agree(paths, vals, f, d1, d2, d1.len() as int);
        assert(d1.take(d1.len() as int) =~= d1);
        assert(d2.take(d2.len() as int) =~= d2);
    }
}

/// A cursor into a trie.
pub trait Zipper: Sized {
    /// The zipper's internal invariant.
    spec fn inv(&self) -> bool;

    /// The focus: the path from the zipper's root to its position.
    spec fn focus(&self) -> Seq<u8>;

    /// The paths, taken from the zipper's root, that exist in the trie.
    spec fn paths(&self) -> Set<Seq<u8>>;

    /// The paths, taken from the zipper's root, that hold a value.
    spec fn vals(&self) -> Set<Seq<u8>>;

    /// Every prefix of an existing path exists.
    proof fn lemma_prefix_closed(&self, p: Seq<u8>, n: int)
        requires
            self.paths().contains(p),
            0 <= n <= p.len(),
        ensures
            self.paths().contains(p.take(n)),
    ;

    /// Whether the focus exists in the trie.
    fn path_exists(&self) -> (r: bool)
        requires
            self.inv(),
        ensures
            r == self.paths().contains(self.focus()),
    ;

    /// Whether the focus holds a value.
    fn is_val(&self) -> (r: bool)
        requires
            self.inv(),
        ensures
            r == self.vals().contains(self.focus()),
    ;

    /// The number of children of the focus.
    fn child_count(&self) -> (r: usize)
        requires
            self.inv(),
        ensures
            r == count_children(self.paths(), self.focus(), 256),
    ;

    /// The bytes that lead from the focus to a child.
    fn child_mask(&self) -> (r: [u64; 4])
        requires
            self.inv(),
        ensures
            forall|b: u8| #[trigger] mask_has(r, b) == self.paths().contains(self.focus().push(b)),
    ;
}

/// A zipper that can move.
pub trait ZipperMoving: Zipper {
    /// Whether the focus is the zipper's root.
    fn at_root(&self) -> (r: bool)
        requires
            self.inv(),
        ensures
            r == (self.focus().len() == 0),
    ;

    /// Moves the focus to the zipper's root.
    fn reset(&mut self)
        requires
            old(self).inv(),
        ensures
            final(self).inv(),
            final(self).focus() == Seq::<u8>::empty(),
            final(self).paths() == old(self).paths() && final(self).vals() == old(self).vals(),
    ;

    /// Descends along `k`; returns whether the new focus exists.
    fn descend_to(&mut self, k: &[u8]) -> (r: bool)
        requires
            old(self).inv(),
        ensures
            final(self).inv(),
            final(self).focus() == old(self).focus() + k@,
            final(self).paths() == old(self).paths() && final(self).vals() == old(self).vals(),
            r == final(self).paths().contains(final(self).focus()),
    ;

    /// Descends along the longest prefix of `k` that exists; returns its length.
    fn descend_to_existing(&mut self, k: &[u8]) -> (n: usize)
        requires
            old(self).inv(),
        ensures
            final(self).inv(),
            n <= k@.len(),
            final(self).focus() == old(self).focus() + k@.take(n as int),
            final(self).paths() == old(self).paths() && final(self).vals() == old(self).vals(),
            forall|i: int| 0 < i <= n ==> #[trigger] old(self).paths().contains(old(self).focus() + k@.take(i)),
            n < k@.len() ==> !old(self).paths().contains(old(self).focus() + k@.take(n + 1)),
    {
        let mut i: usize = 0;
        assert(old(self).focus() + k@.take(0) =~= old(self).focus());
        while i < k.len()
            invariant
                self.inv(),
                i <= k@.len(),
                self.focus() == old(self).focus() + k@.take(i as int),
                self.paths() == old(self).paths() && self.vals() == old(self).vals(),
                forall|j: int| 0 < j <= i ==> #[trigger] old(self).paths().contains(old(self).focus() + k@.take(j)),
            decreases k@.len() - i,
        {
            let ghost before = self.focus();
            let exists = self.descend_to_byte(k[i]);
            assert(old(self).focus() + k@.take(i + 1) =~= before.push(k@[i as int]));
            if !exists {
                self.ascend_byte();
                assert(before.push(k@[i as int]).drop_last() =~= before);
                return i;
            }
            i += 1;
        }
        i
    }

    /// Descends along `k`, stopping after the first byte that reaches a value, or before the
    /// first byte that leaves the trie; returns the number of bytes descended.
    fn descend_to_val(&mut self, k: &[u8]) -> (n: usize)
        requires
            old(self).inv(),
        ensures
            final(self).inv(),
            n <= k@.len(),
            final(self).focus() == old(self).focus() + k@.take(n as int),
            final(self).paths() == old(self).paths() && final(self).vals() == old(self).vals(),
            forall|i: int| 0 < i <= n ==> #[trigger] old(self).paths().contains(old(self).focus() + k@.take(i)),
            forall|i: int| 0 < i < n ==> !#[trigger] old(self).vals().contains(old(self).focus() + k@.take(i)),
            n < k@.len() ==> (n > 0 && old(self).vals().contains(old(self).focus() + k@.take(n as int)))
                || !old(self).paths().contains(old(self).focus() + k@.take(n + 1)),
            n == descend_stop(old(self).paths(), old(self).vals(), old(self).focus(), k@, 0),
    {
        let mut i: usize = 0;
        assert(old(self).focus() + k@.take(0) =~= old(self).focus());
        while i < k.len()
            invariant
                self.inv(),
                i <= k@.len(),
                self.focus() == old(self).focus() + k@.take(i as int),
                self.paths() == old(self).paths() && self.vals() == old(self).vals(),
                forall|j: int| 0 < j <= i ==> #[trigger] old(self).paths().contains(old(self).focus() + k@.take(j)),
                forall|j: int| 0 < j <= i ==> !#[trigger] old(self).vals().contains(old(self).focus() + k@.take(j)),
                descend_stop(old(self).paths(), old(self).vals(), old(self).focus(), k@, 0)
                    == descend_stop(old(self).paths(), old(self).vals(), old(self).focus(), k@, i as nat),
            decreases k@.len() - i,
        {
            let ghost before = self.focus();
            let exists = self.descend_to_byte(k[i]);
            assert(old(self).focus() + k@.take(i + 1) =~= before.push(k@[i as int]));
            if !exists {
                self.ascend_byte();
                assert(before.push(k@[i as int]).drop_last() =~= before);
                return i;
            }
            i += 1;
            if self.is_val() {
                return i;
            }
        }
        i
    }

    /// Descends one byte; returns whether the new focus exists.
    fn descend_to_byte(&mut self, k: u8) -> (r: bool)
        requires
            old(self).inv(),
        ensures
            final(self).inv(),
            final(self).focus() == old(self).focus().push(k),
            final(self).paths() == old(self).paths() && final(self).vals() == old(self).vals(),
            r == final(self).paths().contains(final(self).focus()),
    ;

    /// Descends to the child whose byte is the `idx`-th smallest; `None` (and no move) if there
    /// are not that many children.
    fn descend_indexed_byte(&mut self, idx: usize) -> (r: Option<u8>)
        requires
            old(self).inv(),
        ensures
            final(self).inv(),
            final(self).paths() == old(self).paths() && final(self).vals() == old(self).vals(),
            r is None ==> idx >= count_children(old(self).paths(), old(self).focus(), 256) && final(self).focus()
                == old(self).focus(),
            r matches Some(b) ==> {
                &&& old(self).paths().contains(old(self).focus().push(b))
                &&& count_children(old(self).paths(), old(self).focus(), b as nat) == idx
                &&& final(self).focus() == old(self).focus().push(b)
            },
    ;

    /// Descends to the child with the smallest byte; `None` (and no move) if there is no child.
    fn descend_first_byte(&mut self) -> (r: Option<u8>)
        requires
            old(self).inv(),
        ensures
            final(self).inv(),
            final(self).paths() == old(self).paths() && final(self).vals() == old(self).vals(),
            r is None ==> count_children(old(self).paths(), old(self).focus(), 256) == 0 && final(self).focus()
                == old(self).focus(),
            r matches Some(b) ==> {
                &&& old(self).paths().contains(old(self).focus().push(b))
                &&& count_children(old(self).paths(), old(self).focus(), b as nat) == 0
                &&& final(self).focus() == old(self).focus().push(b)
            },
    {
        self.descend_indexed_byte(0)
    }

    /// Descends along a non-branching path, appending the bytes descended to `dst`;
    /// returns whether it moved.  It moves whenever the focus has exactly one child; the bytes
    /// descended start with the smallest child, pass only points with one child and no value,
    /// and end where the focus holds a value, has no child or branches.
    fn descend_until(&mut self, dst: &mut Vec<u8>) -> (r: bool)
        requires
            old(self).inv(),
        ensures
            final(self).inv(),
            final(self).paths() == old(self).paths() && final(self).vals() == old(self).vals(),
            exists|d: Seq<u8>|
                {
                    &&& final(self).focus() == old(self).focus() + d
                    &&& final(dst)@ == old(dst)@ + d
                    &&& r == (d.len() > 0)
                    &&& straight_descent(old(self).paths(), old(self).vals(), old(self).focus(), d)
                    &&& descent_ends(old(self).paths(), old(self).vals(), old(self).focus(), d)
                },
            count_children(old(self).paths(), old(self).focus(), 256) == 1 ==> r,
    ;

    /// Ascends `steps` bytes; if the focus is shallower, ascends to the root and returns the
    /// number of steps that were left.
    fn ascend(&mut self, steps: usize) -> (r: Result<(), usize>)
        requires
            old(self).inv(),
        ensures
            final(self).inv(),
            final(self).paths() == old(self).paths() && final(self).vals() == old(self).vals(),
            steps <= old(self).focus().len() ==> r is Ok && final(self).focus() == old(self).focus().take(
                old(self).focus().len() - steps,
            ),
            steps > old(self).focus().len() ==> r == Err::<(), usize>((steps - old(self).focus().len()) as usize)
                && final(self).focus() == Seq::<u8>::empty(),
    ;

    /// Ascends one byte; returns `false` (and does not move) at the root.
    fn ascend_byte(&mut self) -> (r: bool)
        requires
            old(self).inv(),
        ensures
            final(self).inv(),
            final(self).paths() == old(self).paths() && final(self).vals() == old(self).vals(),
            r == (old(self).focus().len() > 0),
            r ==> final(self).focus() == old(self).focus().drop_last(),
            !r ==> final(self).focus() == old(self).focus(),
    ;

    /// Ascends to the nearest ancestor that is the root, holds a value, or branches; returns the
    /// number of bytes ascended, or `None` (and no move) at the root.
    fn ascend_until(&mut self) -> (r: Option<usize>)
        requires
            old(self).inv(),
        ensures
            final(self).inv(),
            final(self).paths() == old(self).paths() && final(self).vals() == old(self).vals(),
            r is None <==> old(self).focus().len() == 0,
            r is None ==> final(self).focus() == old(self).focus(),
            r matches Some(n) ==> {
                &&& 0 < n <= old(self).focus().len()
                &&& final(self).focus() == old(self).focus().take(old(self).focus().len() - n)
                &&& stops_ascent(old(self).paths(), old(self).vals(), final(self).focus(), true)
                &&& forall|j: int| old(self).focus().len() - n < j < old(self).focus().len()
                    ==> !stops_ascent(old(self).paths(), old(self).vals(), #[trigger] old(self).focus().take(j), true)
            },
    ;

    /// Ascends to the nearest ancestor that is the root or branches; returns the number of bytes
    /// ascended, or `None` (and no move) at the root.
    fn ascend_until_branch(&mut self) -> (r: Option<usize>)
        requires
            old(self).inv(),
        ensures
            final(self).inv(),
            final(self).paths() == old(self).paths() && final(self).vals() == old(self).vals(),
            r is None <==> old(self).focus().len() == 0,
            r is None ==> final(self).focus() == old(self).focus(),
            r matches Some(n) ==> {
                &&& 0 < n <= old(self).focus().len()
                &&& final(self).focus() == old(self).focus().take(old(self).focus().len() - n)
                &&& stops_ascent(old(self).paths(), old(self).vals(), final(self).focus(), false)
                &&& forall|j: int| old(self).focus().len() - n < j < old(self).focus().len()
                    ==> !stops_ascent(old(self).paths(), old(self).vals(), #[trigger] old(self).focus().take(j), false)
            },
    ;

    /// Moves to the next sibling: the existing sibling with the smallest byte greater than the
    /// last byte of the focus.  `None` (and no move) if there is none, or at the root.
    fn to_next_sibling_byte(&mut self) -> (r: Option<u8>)
        requires
            old(self).inv(),
        ensures
            final(self).inv(),
            final(self).paths() == old(self).paths() && final(self).vals() == old(self).vals(),
            r is None ==> final(self).focus() == old(self).focus(),
            r is None && old(self).focus().len() > 0 ==> forall|c: u8|
                c > old(self).focus().last() ==> !#[trigger] old(self).paths().contains(old(self).focus().drop_last().push(c)),
            r matches Some(b) ==> {
                &&& old(self).focus().len() > 0
                &&& b > old(self).focus().last()
                &&& final(self).focus() == old(self).focus().drop_last().push(b)
                &&& old(self).paths().contains(final(self).focus())
                &&& forall|c: u8| old(self).focus().last() < c < b ==> !#[trigger] old(self).paths().contains(
                    old(self).focus().drop_last().push(c),
                )
            },
    ;

    /// Moves to the previous sibling: the existing sibling with the greatest byte smaller than
    /// the last byte of the focus.  `None` (and no move) if there is none, or at the root.
    fn to_prev_sibling_byte(&mut self) -> (r: Option<u8>)
        requires
            old(self).inv(),
        ensures
            final(self).inv(),
            final(self).paths() == old(self).paths() && final(self).vals() == old(self).vals(),
            r is None ==> final(self).focus() == old(self).focus(),
            r is None && old(self).focus().len() > 0 ==> forall|c: u8|
                c < old(self).focus().last() ==> !#[trigger] old(self).paths().contains(old(self).focus().drop_last().push(c)),
            r matches Some(b) ==> {
                &&& old(self).focus().len() > 0
                &&& b < old(self).focus().last()
                &&& final(self).focus() == old(self).focus().drop_last().push(b)
                &&& old(self).paths().contains(final(self).focus())
                &&& forall|c: u8| b < c < old(self).focus().last() ==> !#[trigger] old(self).paths().contains(
                    old(self).focus().drop_last().push(c),
                )
            },
    ;
}

/// A zipper that can report its focus.
pub trait ZipperPath: Zipper {
    /// The focus, relative to the zipper's root.
    fn path(&self) -> (r: &[u8])
        requires
            self.inv(),
        ensures
            r@ == self.focus(),
    ;
}

/// A zipper whose root lies at a known path of an enclosing trie.
pub trait ZipperAbsolutePath: ZipperPath {
    /// The path of the zipper's root in the enclosing trie.
    spec fn root_prefix(&self) -> Seq<u8>;

    /// The focus, as a path of the enclosing trie.
    fn origin_path(&self) -> (r: &[u8])
        requires
            self.inv(),
        ensures
            r@ == self.root_prefix() + self.focus(),
    ;

    /// The path of the zipper's root in the enclosing trie.
    fn root_prefix_path(&self) -> (r: &[u8])
        requires
            self.inv(),
        ensures
            r@ == self.root_prefix(),
    ;
}

/// A zipper that can read the value at its focus.
pub trait ZipperValues<V>: Zipper {
    /// The value at path `p`, taken from the zipper's root.
    spec fn value_at(&self, p: Seq<u8>) -> Option<V>;

    /// The value at the focus.
    fn val(&self) -> (r: Option<&V>)
        requires
            self.inv(),
        ensures
            r is Some == self.vals().contains(self.focus()),
            r matches Some(v) ==> self.value_at(self.focus()) == Some(*v),
    ;
}

/// Ascending as many bytes as a descent took returns to where the descent started: if
/// `descend_to(k)` took the focus from `f0` to `f1` (so `f1 == f0 + k`), then `ascend(k.len())`
/// succeeds from `f1` and leaves the focus at `f0`.
pub proof fn law_ascend_undoes_descend(f0: Seq<u8>, k: Seq<u8>, f1: Seq<u8>, f2: Seq<u8>)
    requires
        f1 == f0 + k,
        f2 == f1.take(f1.len() - k.len()),
    ensures
        k.len() <= f1.len(),
        f2 == f0,
{
    assert(f2 =~= f0);
}

/// Descending one byte and ascending one byte returns to the same focus: if
/// `descend_to_byte(b)` took the focus from `f0` to `f1`, then `ascend_byte` succeeds from `f1`
/// and leaves the focus at `f0`.
pub proof fn law_ascend_byte_undoes_descend_byte(f0: Seq<u8>, b: u8, f1: Seq<u8>, f2: Seq<u8>)
    requires
        f1 == f0.push(b),
        f2 == f1.drop_last(),
    ensures
        f1.len() > 0,
        f2 == f0,
{
    assert(f2 =~= f0);
}

/// Where `descend_to_val(k)` from focus `f` stops when started at byte `i` of `k`: before the
/// first byte that leaves the trie, after the first byte that reaches a value, or at the end of
/// `k`.
pub open spec fn descend_stop(paths: Set<Seq<u8>>, vals: Set<Seq<u8>>, f: Seq<u8>, k: Seq<u8>, i: nat) -> nat
    decreases k.len() - i,
{
    if i >= k.len() {
        k.len()
    } else if !paths.contains(f + k.take(i as int + 1)) {
        i
    } else if vals.contains(f + k.take(i as int + 1)) {
        i + 1
    } else {
        descend_stop(paths, vals, f, k, i + 1)
    }
}

/// A trie's paths hold every prefix of each of them, and its values lie on its paths.
pub open spec fn trie_sets(paths: Set<Seq<u8>>, vals: Set<Seq<u8>>) -> bool {
    &&& forall|p: Seq<u8>, n: int| paths.contains(p) && 0 <= n <= p.len() ==> #[trigger] paths.contains(#[trigger] p.take(n))
    &&& vals.subset_of(paths)
}

/// Where descending over the union of two tries stops, from the stops `db` and `dov` of each.
pub open spec fn union_stop(vb: Set<Seq<u8>>, vo: Set<Seq<u8>>, f: Seq<u8>, k: Seq<u8>, db: nat, dov: nat) -> nat {
    if db < dov && db > 0 && vb.contains(f + k.take(db as int)) {
        db
    } else if dov < db && dov > 0 && vo.contains(f + k.take(dov as int)) {
        dov
    } else if db < dov {
        dov
    } else {
        db
    }
}

proof fn lemma_descend_stop_bounds(paths: Set<Seq<u8>>, vals: Set<Seq<u8>>, f: Seq<u8>, k: Seq<u8>, i: nat)
    requires
        i <= k.len(),
    ensures
        i <= descend_stop(paths, vals, f, k, i) <= k.len(),
    decreases k.len() - i,
{
    if i < k.len() {
        lemma_descend_stop_bounds(paths, vals, f, k, i + 1);
    }
}

proof fn lemma_union_stop(pb: Set<Seq<u8>>, vb: Set<Seq<u8>>, po: Set<Seq<u8>>, vo: Set<Seq<u8>>, f: Seq<u8>, k: Seq<u8>, i: nat)
    requires
        trie_sets(pb, vb),
        trie_sets(po, vo),
        i <= k.len(),
        i == 0 || (!vb.contains(f + k.take(i as int)) && !vo.contains(f + k.take(i as int))),
    ensures
        descend_stop(pb + po, vb + vo, f, k, i)
            == union_stop(vb, vo, f, k, descend_stop(pb, vb, f, k, i), descend_stop(po, vo, f, k, i)),
    decreases k.len() - i,
{
    if i < k.len() {
        let q = f + k.take(i as int + 1);
        let inb = pb.contains(q);
        let ino = po.contains(q);
        if !inb {
            lemma_union_stop_missing(pb, vb, f, k, i);
        }
        if !ino {
            lemma_union_stop_missing(po, vo, f, k, i);
        }
        lemma_descend_stop_bounds(pb, vb, f, k, i + 1);
        lemma_descend_stop_bounds(po, vo, f, k, i + 1);
        let ub = pb + po;
        let uv = vb + vo;
        assert(ub.contains(q) == (inb || ino));
        assert(uv.contains(q) == (vb.contains(q) || vo.contains(q)));
        let db = descend_stop(pb, vb, f, k, i);
        let dov = descend_stop(po, vo, f, k, i);
        let du = descend_stop(ub, uv, f, k, i);
        assert(i > 0 ==> !vb.contains(f + k.take(i as int)) && !vo.contains(f + k.take(i as int)));
        if !inb && !ino {
            assert(db == i && dov == i && du == i);
        } else if !inb {
            assert(db == i);
            assert(!vb.contains(q));
            if vo.contains(q) {
                assert(du == i + 1 && dov == i + 1);
            } else {
                lemma_union_stop(pb, vb, po, vo, f, k, i + 1);
                assert(descend_stop(pb, vb, f, k, i + 1) == i + 1);
                assert(du == descend_stop(ub, uv, f, k, i + 1));
                assert(dov == descend_stop(po, vo, f, k, i + 1));
            }
        } else if !ino {
            assert(dov == i);
            assert(!vo.contains(q));
            if vb.contains(q) {
                assert(du == i + 1 && db == i + 1);
            } else {
                lemma_union_stop(pb, vb, po, vo, f, k, i + 1);
                assert(descend_stop(po, vo, f, k, i + 1) == i + 1);
                assert(du == descend_stop(ub, uv, f, k, i + 1));
                assert(db == descend_stop(pb, vb, f, k, i + 1));
            }
        } else if vb.contains(q) || vo.contains(q) {
            assert(du == i + 1);
            if vb.contains(q) {
                assert(db == i + 1);
            }
            if vo.contains(q) {
                assert(dov == i + 1);
            }
        } else {
            lemma_union_stop(pb, vb, po, vo, f, k, i + 1);
        }
    }
}

/// Once a path leaves a trie, descending further stays at the point where it left.
proof fn lemma_union_stop_missing(paths: Set<Seq<u8>>, vals: Set<Seq<u8>>, f: Seq<u8>, k: Seq<u8>, i: nat)
    requires
        trie_sets(paths, vals),
        i < k.len(),
        !paths.contains(f + k.take(i as int + 1)),
    ensures
        descend_stop(paths, vals, f, k, i + 1) == i + 1,
        !vals.contains(f + k.take(i as int + 1)),
{
    if i + 1 < k.len() {
        let p = f + k.take(i as int + 2);
        if paths.contains(p) {
            assert(p.take(f.len() + i as int + 1) =~= f + k.take(i as int + 1));
            assert(paths.contains(p.take(f.len() + i as int + 1)));
        }
    }
}

/// Descending to a value over two tries laid on each other stops where one of them alone stops:
/// at the shallower stop when that trie stops on a value there, and otherwise at the deeper
/// stop.  (The stops are those of `descend_to_val` from the same focus along the same bytes.)
pub proof fn law_overlay_descend_to_value(
    pb: Set<Seq<u8>>,
    vb: Set<Seq<u8>>,
    po: Set<Seq<u8>>,
    vo: Set<Seq<u8>>,
    f: Seq<u8>,
    k: Seq<u8>,
)
    requires
        trie_sets(pb, vb),
        trie_sets(po, vo),
    ensures
        descend_stop(pb + po, vb + vo, f, k, 0)
            == union_stop(vb, vo, f, k, descend_stop(pb, vb, f, k, 0), descend_stop(po, vo, f, k, 0)),
{
    lemma_union_stop(pb, vb, po, vo, f, k, 0);
}

} // verus!
