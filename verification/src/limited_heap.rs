//! A bounded collection of `(value, key)` pairs that keeps the `N` best entries by key: the
//! largest keys (`KEEP_SMALLEST = false`) or the smallest keys (`KEEP_SMALLEST = true`).

use vstd::prelude::*;
use vstd::laws_cmp::{obeys_cmp, obeys_cmp_partial_ord, obeys_partial_cmp_spec_properties};
use vstd::std_specs::cmp::{OrdSpec, PartialOrdSpec};
use core::cmp::Ordering;

verus! {

/// `a < b` according to the key type's ordering.
pub open spec fn key_lt<K: PartialOrd>(a: K, b: K) -> bool {
    a.partial_cmp_spec(&b) == Some(Ordering::Less)
}

/// Whether key `a` ranks before key `b`: larger keys rank first when the
/// largest are kept, smaller keys when the smallest are kept.
pub open spec fn ranks_before<K: PartialOrd>(a: K, b: K, keep_smallest: bool) -> bool {
    if keep_smallest {
        key_lt(a, b)
    } else {
        key_lt(b, a)
    }
}

/// Entry `t` ranks last among `items`: no entry ranks after it by key.
pub open spec fn is_top<V, K: PartialOrd>(items: Seq<(V, K)>, t: int, keep_smallest: bool) -> bool {
    &&& 0 <= t < items.len()
    &&& forall|j: int| 0 <= j < items.len() ==> !ranks_before(items[t].1, #[trigger] items[j].1, keep_smallest)
}

/// The key type's comparison operators agree with a lawful total order.
pub open spec fn lawful_order<K: Ord>() -> bool {
    obeys_cmp::<K>()
}

/// The key type's `<` operator is described by [`key_lt`].
pub open spec fn lt_described<K: Ord>() -> bool {
    K::obeys_partial_cmp_spec()
}

/// `<` on a type that obeys the ordering laws is transitive and asymmetric.
pub proof fn lemma_key_lt_order<K: Ord>()
    requires
        lawful_order::<K>(),
    ensures
        lt_described::<K>(),
        forall|x: K, y: K, z: K| #[trigger] key_lt(x, y) && #[trigger] key_lt(y, z) ==> key_lt(x, z),
        forall|x: K, y: K| #[trigger] key_lt(x, y) ==> !key_lt(y, x),
{
    reveal(obeys_partial_cmp_spec_properties);
    reveal(obeys_cmp_partial_ord);
}

/// `a > b` according to the key type's ordering.
pub open spec fn key_gt<K: PartialOrd>(a: K, b: K) -> bool {
    a.partial_cmp_spec(&b) == Some(Ordering::Greater)
}

/// `a > b` holds exactly when `b < a`, for a lawful order.
proof fn lemma_gt_is_lt<K: Ord>()
    requires
        lawful_order::<K>(),
    ensures
        forall|a: K, b: K| #[trigger] key_gt(a, b) <==> key_lt(b, a),
{
    reveal(obeys_partial_cmp_spec_properties);
}

/// `new` is what inserting `(value, key)` into a heap of capacity `cap` holding `old` leaves:
/// below capacity the entry is added; at capacity it replaces an entry that ranks last if it
/// ranks before that entry, and is discarded otherwise.
pub open spec fn insert_effect<V, K: PartialOrd>(
    old: Seq<(V, K)>,
    new: Seq<(V, K)>,
    value: V,
    key: K,
    cap: nat,
    keep_smallest: bool,
) -> bool {
    &&& old.len() < cap ==> new == old.push((value, key))
    &&& old.len() >= cap && old.len() == 0 ==> new == old
    &&& old.len() >= cap && old.len() > 0 ==> exists|t: int|
        #![trigger is_top(old, t, keep_smallest)]
        {
            &&& is_top(old, t, keep_smallest)
            &&& ranks_before(key, old[t].1, keep_smallest) ==> new == old.remove(t).push((value, key))
            &&& !ranks_before(key, old[t].1, keep_smallest) ==> new == old
        }
}

/// A fixed-size collection of `(value, key)` pairs that keeps either the top `N` (largest)
/// entries or the bottom `N` (smallest) entries by key, depending on `KEEP_SMALLEST`.
pub struct LimitedHeap<V, K, const KEEP_SMALLEST: bool> {
    capacity: usize,
    heap: Vec<(V, K)>,
}

impl<V, K, const M: bool> View for LimitedHeap<V, K, M> {
    type V = Seq<(V, K)>;

    closed spec fn view(&self) -> Seq<(V, K)> {
        self.heap@
    }
}

impl<V, K: Ord, const M: bool> LimitedHeap<V, K, M> {
    /// The number of entries the heap keeps at most.
    pub closed spec fn capacity(&self) -> nat {
        self.capacity as nat
    }

    /// Creates an empty heap that keeps at most `max_size` entries.
    pub fn new(max_size: usize) -> (r: Self)
        ensures
            r@ == Seq::<(V, K)>::empty(),
            r.capacity() == max_size,
    {
        Self { capacity: max_size, heap: Vec::new() }
    }

    /// Current number of entries.
    pub fn len(&self) -> (r: usize)
        ensures
            r == self@.len(),
    {
        self.heap.len()
    }

    /// Whether the heap holds no entry.
    pub fn is_empty(&self) -> (r: bool)
        ensures
            r == (self@.len() == 0),
    {
        self.heap.len() == 0
    }

    /// Index of an entry that ranks last.
    fn top_index(&self) -> (t: usize)
        requires
            self@.len() > 0,
            lawful_order::<K>(),
        ensures
            is_top(self@, t as int, M),
    {
        proof {
            lemma_key_lt_order::<K>();
        }
        let mut t: usize = 0;
        let mut j: usize = 1;
        while j < self.heap.len()
            invariant
                lt_described::<K>(),
                forall|x: K, y: K, z: K| #[trigger] key_lt(x, y) && #[trigger] key_lt(y, z) ==> key_lt(x, z),
                forall|x: K, y: K| #[trigger] key_lt(x, y) ==> !key_lt(y, x),
                1 <= j <= self@.len(),
                t < j,
                forall|i: int| 0 <= i < j ==> !ranks_before(self@[t as int].1, #[trigger] self@[i].1, M),
            decreases self@.len() - j,
        {
            let worse = if M {
                self.heap[t].1 < self.heap[j].1
            } else {
                self.heap[j].1 < self.heap[t].1
            };
            proof {
                if M {
                    assert(worse == key_lt(self@[t as int].1, self@[j as int].1));
                } else {
                    assert(worse == key_lt(self@[j as int].1, self@[t as int].1));
                }
            }
            if worse {
                proof {
                    assert forall|i: int| 0 <= i < j + 1 implies !ranks_before(self@[j as int].1, #[trigger] self@[i].1, M) by {
                        if i < j && i != t {
                            assert(!ranks_before(self@[t as int].1, self@[i].1, M));
                        }
                    }
                }
                t = j;
            }
            j += 1;
        }
        t
    }

    /// An entry that ranks last: the smallest of the kept entries when the largest are kept,
    /// the largest of them when the smallest are kept.  `None` when empty.
    pub fn peek(&self) -> (r: Option<&(V, K)>)
        requires
            lawful_order::<K>(),
        ensures
            r is None <==> self@.len() == 0,
            r matches Some(e) ==> exists|t: int| is_top(self@, t, M) && self@[t] == *e,
    {
        if self.heap.len() == 0 {
            None
        } else {
            let t = self.top_index();
            Some(&self.heap[t])
        }
    }

    /// Inserts the value-key pair `(value, key)`, discarding it if it does not belong among
    /// the kept `N`.
    ///
    /// Below capacity the entry is added.  At capacity, it replaces an entry that ranks last,
    /// if it ranks before that entry; otherwise the heap is unchanged.
    pub fn insert(&mut self, value: V, key: K)
        requires
            lawful_order::<K>(),
        ensures
            final(self).capacity() == old(self).capacity(),
            insert_effect(old(self)@, final(self)@, value, key, old(self).capacity(), M),
    {
        if self.heap.len() < self.capacity {
            self.heap.push((value, key));
            return;
        }
        if self.heap.len() > 0 {
            let t = self.top_index();
            let should_replace = if M {
                key < self.heap[t].1
            } else {
                key > self.heap[t].1
            };
            proof {
                lemma_key_lt_order::<K>();
                lemma_gt_is_lt::<K>();
                let top = self@[t as int].1;
                if M {
                    assert(should_replace == key_lt(key, top));
                } else {
                    assert(should_replace == key_gt(key, top));
                    assert(key_gt(key, top) == key_lt(top, key));
                }
                assert(should_replace == ranks_before(key, top, M));
            }
            if should_replace {
                self.heap.remove(t);
                self.heap.push((value, key));
                proof {
                    assert(self@ =~= old(self)@.remove(t as int).push((value, key)));
                }
            }
            proof {
                let ti = t as int;
                assert(is_top(old(self)@, ti, M));
                if should_replace {
                    assert(self@ == old(self)@.remove(ti).push((value, key)));
                } else {
                    assert(self@ == old(self)@);
                }
            }
        }
    }

    /// Like [`LimitedHeap::insert`], with the entry's key given first and its value computed
    /// by `value`, which is called only when the entry is kept.
    pub fn insert_lazy<F: FnOnce() -> V>(&mut self, key: K, value: F)
        requires
            lawful_order::<K>(),
            value.requires(()),
        ensures
            final(self).capacity() == old(self).capacity(),
            old(self)@.len() < old(self).capacity() ==> exists|v: V|
                value.ensures((), v) && final(self)@ == old(self)@.push((v, key)),
            old(self)@.len() >= old(self).capacity() && old(self)@.len() == 0 ==> final(self)@ == old(self)@,
            old(self)@.len() >= old(self).capacity() && old(self)@.len() > 0 ==> exists|t: int|
                #![trigger is_top(old(self)@, t, M)]
                {
                    &&& is_top(old(self)@, t, M)
                    &&& ranks_before(key, old(self)@[t].1, M) ==> exists|v: V|
                        value.ensures((), v) && final(self)@ == old(self)@.remove(t).push((v, key))
                    &&& !ranks_before(key, old(self)@[t].1, M) ==> final(self)@ == old(self)@
                },
    {
        if self.heap.len() < self.capacity {
            let v = value();
            self.heap.push((v, key));
            return;
        }
        if self.heap.len() > 0 {
            let t = self.top_index();
            let should_replace = if M {
                key < self.heap[t].1
            } else {
                key > self.heap[t].1
            };
            proof {
                lemma_key_lt_order::<K>();
                lemma_gt_is_lt::<K>();
                let top = self@[t as int].1;
                if M {
                    assert(should_replace == key_lt(key, top));
                } else {
                    assert(should_replace == key_gt(key, top));
                    assert(key_gt(key, top) == key_lt(top, key));
                }
                assert(should_replace == ranks_before(key, top, M));
            }
            if should_replace {
                let v = value();
                self.heap.remove(t);
                self.heap.push((v, key));
                proof {
                    assert(self@ =~= old(self)@.remove(t as int).push((v, key)));
                }
            }
            proof {
                assert(is_top(old(self)@, t as int, M));
            }
        }
    }

    /// The kept entries.
    pub fn as_slice(&self) -> (r: &[(V, K)])
        ensures
            r@ == self@,
    {
        self.heap.as_slice()
    }
}

/// Every kept entry ranks no later than every dropped entry.
pub open spec fn kept_best<V, K: PartialOrd>(kept: Seq<(V, K)>, dropped: Seq<(V, K)>, keep_smallest: bool) -> bool {
    forall|i: int, j: int|
        0 <= i < kept.len() && 0 <= j < dropped.len() ==> !ranks_before(#[trigger] dropped[j].1, #[trigger] kept[i].1, keep_smallest)
}

/// Inserting keeps the best entries.  If every kept entry ranked no later than every entry
/// dropped so far, and entries were dropped only from a full heap, then after inserting
/// `(value, key)` the same holds of the new contents and of the entries dropped then: the
/// former ones and at most the one entry that the insert evicted or rejected, the kept and the
/// dropped entries together being the former ones and the new entry.
pub proof fn law_insert_keeps_best<V, K: Ord>(
    old: Seq<(V, K)>,
    new: Seq<(V, K)>,
    dropped: Seq<(V, K)>,
    value: V,
    key: K,
    cap: nat,
    keep_smallest: bool,
)
    requires
        lawful_order::<K>(),
        vstd::laws_eq::obeys_concrete_eq::<K>(),
        old.len() <= cap,
        dropped.len() > 0 ==> old.len() == cap,
        kept_best(old, dropped, keep_smallest),
        insert_effect(old, new, value, key, cap, keep_smallest),
    ensures
        exists|d2: Seq<(V, K)>| {
            &&& kept_best(new, d2, keep_smallest)
            &&& new.len() <= cap
            &&& d2.len() > 0 ==> new.len() == cap
            &&& new.to_multiset().add(d2.to_multiset()) == old.to_multiset().add(dropped.to_multiset()).insert((value, key))
        },
{
    broadcast use vstd::seq_lib::group_to_multiset_ensures;
    broadcast use vstd::multiset::group_multiset_axioms;
    lemma_key_lt_order::<K>();
    reveal(vstd::laws_cmp::obeys_partial_cmp_spec_properties);
    reveal(vstd::laws_cmp::obeys_cmp_ord);
    reveal(vstd::laws_eq::obeys_concrete_eq);
    let kv = (value, key);
    let m = keep_smallest;
    if old.len() < cap {
        let d2 = dropped;
        assert(d2.len() == 0);
        assert(kept_best(new, d2, m));
        assert(new.to_multiset().add(d2.to_multiset()) =~= old.to_multiset().add(dropped.to_multiset()).insert(kv));
        assert(new.len() <= cap);
    } else if old.len() == 0 {
        let d2 = dropped.push(kv);
        assert(kept_best(new, d2, m));
        assert(new.to_multiset().add(d2.to_multiset()) =~= old.to_multiset().add(dropped.to_multiset()).insert(kv));
        assert(new.len() <= cap);
    } else {
        let t = choose|t: int| #[trigger] is_top(old, t, m)
            && (ranks_before(key, old[t].1, m) ==> new == old.remove(t).push(kv))
            && (!ranks_before(key, old[t].1, m) ==> new == old);
        let top = old[t];
        if ranks_before(key, top.1, m) {
            let d2 = dropped.push(top);
            assert forall|i: int, j: int| 0 <= i < new.len() && 0 <= j < d2.len()
                implies !ranks_before(#[trigger] d2[j].1, #[trigger] new[i].1, m) by {
                if j < dropped.len() {
                    assert(!ranks_before(dropped[j].1, top.1, m));
                    if i < new.len() - 1 {
                        let oi = if i < t { i } else { i + 1 };
                        assert(new[i] == old[oi]);
                        assert(!ranks_before(dropped[j].1, old[oi].1, m));
                    }
                } else {
                    if i < new.len() - 1 {
                        let oi = if i < t { i } else { i + 1 };
                        assert(new[i] == old[oi]);
                        assert(!ranks_before(top.1, old[oi].1, m));
                    }
                }
            }
            assert(new.to_multiset().add(d2.to_multiset()) =~= old.to_multiset().add(dropped.to_multiset()).insert(kv));
            assert(kept_best(new, d2, m));
            assert(new.len() <= cap);
            assert(d2.len() > 0 ==> new.len() == cap);
        } else {
            let d2 = dropped.push(kv);
            assert forall|i: int, j: int| 0 <= i < new.len() && 0 <= j < d2.len()
                implies !ranks_before(#[trigger] d2[j].1, #[trigger] new[i].1, m) by {
                if j == dropped.len() {
                    let k = new[i].1;
                    assert(!ranks_before(top.1, k, m));
                    assert(key.partial_cmp_spec(&k) == Some(key.cmp_spec(&k)));
                    assert(top.1.partial_cmp_spec(&k) == Some(top.1.cmp_spec(&k)));
                    assert(top.1.partial_cmp_spec(&key) == Some(top.1.cmp_spec(&key)));
                }
            }
            assert(new.to_multiset().add(d2.to_multiset()) =~= old.to_multiset().add(dropped.to_multiset()).insert(kv));
            assert(kept_best(new, d2, m));
            assert(new.len() <= cap);
            assert(d2.len() > 0 ==> new.len() == cap);
        }
    }
}

/// The heap after the first `n` of a run of inserts into an empty heap, and the entries it
/// dropped on the way.
proof fn lemma_inserts<V, K: Ord>(states: Seq<Seq<(V, K)>>, entries: Seq<(V, K)>, cap: nat, keep_smallest: bool, n: int)
    -> (dropped: Seq<(V, K)>)
    requires
        lawful_order::<K>(),
        vstd::laws_eq::obeys_concrete_eq::<K>(),
        states.len() == entries.len() + 1,
        states[0] == Seq::<(V, K)>::empty(),
        forall|i: int| 0 <= i < entries.len() ==> #[trigger] insert_effect(states[i], states[i + 1], entries[i].0, entries[i].1, cap, keep_smallest),
        0 <= n <= entries.len(),
    ensures
        states[n].len() == if n < cap { n } else { cap as int },
        dropped.len() > 0 ==> states[n].len() == cap,
        kept_best(states[n], dropped, keep_smallest),
        states[n].to_multiset().add(dropped.to_multiset()) == entries.take(n).to_multiset(),
    decreases n,
{
    broadcast use vstd::seq_lib::group_to_multiset_ensures;
    if n == 0 {
        let d = Seq::<(V, K)>::empty();
        assert(entries.take(0) =~= Seq::<(V, K)>::empty());
        assert(states[0].to_multiset().add(d.to_multiset()) =~= entries.take(0).to_multiset());
        d
    } else {
        let k = n - 1;
        let d = lemma_inserts(states, entries, cap, keep_smallest, k);
        let e = entries[k];
        assert(insert_effect(states[k], states[k + 1], entries[k].0, entries[k].1, cap, keep_smallest));
        assert(states[k + 1] == states[n]);
        law_insert_keeps_best(states[k], states[n], d, e.0, e.1, cap, keep_smallest);
        let d2 = choose|d2: Seq<(V, K)>| {
            &&& kept_best(states[n], d2, keep_smallest)
            &&& states[n].len() <= cap
            &&& d2.len() > 0 ==> states[n].len() == cap
            &&& states[n].to_multiset().add(d2.to_multiset()) == states[k].to_multiset().add(d.to_multiset()).insert((e.0, e.1))
        };
        assert(entries.take(n) =~= entries.take(k).push(e));
        assert(states[k].len() < cap ==> states[n] == states[k].push((e.0, e.1)));
        if states[k].len() >= cap && states[k].len() > 0 {
            let t = choose|t: int| #[trigger] is_top(states[k], t, keep_smallest)
                && (ranks_before(e.1, states[k][t].1, keep_smallest) ==> states[n] == states[k].remove(t).push((e.0, e.1)))
                && (!ranks_before(e.1, states[k][t].1, keep_smallest) ==> states[n] == states[k]);
        }
        assert(e == (e.0, e.1));
        d2
    }
}

/// After inserting `entries`, one by one, into an empty heap of capacity `cap` (each step as
/// `insert` does it), the heap holds `min(cap, entries.len())` entries, and there are dropped
/// entries such that every kept entry ranks no later than every dropped one, the kept and the
/// dropped together being the entries inserted.
pub proof fn law_inserts_keep_best<V, K: Ord>(states: Seq<Seq<(V, K)>>, entries: Seq<(V, K)>, cap: nat, keep_smallest: bool)
    requires
        lawful_order::<K>(),
        vstd::laws_eq::obeys_concrete_eq::<K>(),
        states.len() == entries.len() + 1,
        states[0] == Seq::<(V, K)>::empty(),
        forall|i: int| 0 <= i < entries.len() ==> #[trigger] insert_effect(states[i], states[i + 1], entries[i].0, entries[i].1, cap, keep_smallest),
    ensures
        states.last().len() == if entries.len() < cap { entries.len() } else { cap },
        exists|dropped: Seq<(V, K)>| #![trigger kept_best(states.last(), dropped, keep_smallest)]
            kept_best(states.last(), dropped, keep_smallest)
            && states.last().to_multiset().add(dropped.to_multiset()) == entries.to_multiset(),
{
    let n = entries.len() as int;
    let d = lemma_inserts(states, entries, cap, keep_smallest, n);
    assert(entries.take(n) =~= entries);
    assert(states.last() == states[n]);
}

} // verus!
