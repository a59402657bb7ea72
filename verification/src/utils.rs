//! Byte masks: 256-bit sets of bytes stored as four `u64` words.
//!
//! Byte `k` lives in word `k / 64`, at bit `k % 64`.

use vstd::prelude::*;
use vstd::std_specs::bits::{u64_trailing_zeros, axiom_u64_trailing_zeros};

verus! {

/// Whether bit `i` of `w` is set.
pub open spec fn bit(w: u64, i: u64) -> bool {
    w & (1u64 << i) != 0
}

/// Whether byte `k` is a member of the byte mask `m`.
pub open spec fn mask_has(m: [u64; 4], k: u8) -> bool {
    bit(m[(k / 64) as int], (k % 64) as u64)
}

/// The set of bytes held by a byte mask.
pub open spec fn mask_view(m: [u64; 4]) -> Set<u8> {
    Set::new(|k: u8| mask_has(m, k))
}

/// Number of set bits of `w` among bits `0 .. n`.
pub open spec fn bits_below(w: u64, n: nat) -> nat
    decreases n,
{
    if n == 0 {
        0
    } else {
        bits_below(w, (n - 1) as nat) + if bit(w, (n - 1) as u64) { 1nat } else { 0nat }
    }
}

/// Number of bytes of `m` that are smaller than `n` (for `n <= 256`).
pub open spec fn mask_count_below(m: [u64; 4], n: nat) -> nat
    decreases n,
{
    if n == 0 {
        0
    } else {
        mask_count_below(m, (n - 1) as nat) + if mask_has(m, (n - 1) as u8) { 1nat } else { 0nat }
    }
}

/// A word is determined by its bits.
pub proof fn lemma_word_by_bits(a: u64, b: u64)
    requires
        forall|i: u64| i < 64 ==> #[trigger] bit(a, i) == bit(b, i),
    ensures
        a == b,
{
    let x = a ^ b;
    axiom_u64_trailing_zeros(x);
    if x != 0 {
        let t = u64_trailing_zeros(x) as u64;
        assert(t < 64);
        assert((x >> t) & 1u64 == 1u64);
        assert(bit(a, t) == bit(b, t));
        assert(t < 64 && x == a ^ b && (x >> t) & 1u64 == 1u64 ==> (a & (1u64 << t) != 0) != (b & (1u64 << t) != 0))
            by (bit_vector);
    } else {
        assert(a ^ b == 0 ==> a == b) by (bit_vector);
    }
}

/// A byte mask is determined by the set of bytes it holds: two masks with the same view are the
/// same four words.
pub proof fn law_mask_view_determines(x: [u64; 4], y: [u64; 4])
    requires
        mask_view(x) == mask_view(y),
    ensures
        x == y,
{
    assert forall|q: int| 0 <= q < 4 implies x[q] == y[q] by {
        assert forall|i: u64| i < 64 implies #[trigger] bit(x[q], i) == bit(y[q], i) by {
            let kk: int = 64 * q + i;
            assert(0 <= kk < 256);
            let k = kk as u8;
            assert(k as int == kk);
            assert((k / 64) as int == q && (k % 64) as u64 == i);
            assert(mask_view(x).contains(k) == mask_view(y).contains(k));
            assert(mask_view(x).contains(k) == mask_has(x, k));
            assert(mask_view(y).contains(k) == mask_has(y, k));
            assert(mask_has(x, k) == mask_has(y, k));
        }
        lemma_word_by_bits(x[q], y[q]);
    }
    assert(x =~= y);
}

/// Number of bytes held by the mask.
pub open spec fn mask_len(m: [u64; 4]) -> nat {
    mask_count_below(m, 256)
}

/// Number of set bits in the first `q` words of `m`.
pub open spec fn words_full(m: [u64; 4], q: nat) -> nat
    decreases q,
{
    if q == 0 {
        0
    } else {
        words_full(m, (q - 1) as nat) + bits_below(m[q - 1], 64)
    }
}

/// The number of set bits of a word: `u64::count_ones`.
///
/// Trusted: std documents `count_ones` as the number of ones in the binary
/// representation, which is `bits_below(w, 64)`.
#[verifier::external_body]
pub(crate) fn count_ones(w: u64) -> (r: u32)
    ensures
        r == bits_below(w, 64),
{
    w.count_ones()
}

pub proof fn lemma_byte_index(k: u8)
    ensures
        ((k & 0b11000000u8) >> 6u8) == k / 64,
        (k & 0b00111111u8) == k % 64,
        k / 64 < 4,
{
    assert(((k & 0b11000000u8) >> 6u8) == k / 64) by (bit_vector);
    assert((k & 0b00111111u8) == k % 64) by (bit_vector);
}

pub proof fn lemma_bits_below_bound(w: u64, n: nat)
    ensures
        bits_below(w, n) <= n,
    decreases n,
{
    if n > 0 {
        lemma_bits_below_bound(w, (n - 1) as nat);
    }
}

proof fn lemma_bit_and_low_mask(w: u64, j: u64, i: u64)
    requires
        j < 64,
        i < 64,
    ensures
        bit(w & (!0u64 >> ((63u64 - j) as u64)), i) == (bit(w, i) && i <= j),
{
    assert((w & (!0u64 >> ((63u64 - j) as u64))) & (1u64 << i) != 0 <==> (w & (1u64 << i) != 0 && i <= j))
        by (bit_vector)
        requires
            j < 64,
            i < 64,
    ;
}

proof fn lemma_bits_below_low_mask(w: u64, j: u64, n: nat)
    requires
        j < 64,
        n <= 64,
    ensures
        bits_below(w & (!0u64 >> ((63u64 - j) as u64)), n) == bits_below(w, if n <= j + 1 { n } else { (j + 1) as nat }),
    decreases n,
{
    if n > 0 {
        lemma_bits_below_low_mask(w, j, (n - 1) as nat);
        lemma_bit_and_low_mask(w, j, (n - 1) as u64);
    }
}

/// Counting the bytes of a mask below `64 * q + r` splits into whole words and a partial word.
pub proof fn lemma_mask_count_split(m: [u64; 4], q: nat, r: nat)
    requires
        q < 4,
        r <= 64,
    ensures
        mask_count_below(m, 64 * q + r) == words_full(m, q) + bits_below(m[q as int], r),
    decreases q, r,
{
    if r == 0 {
        if q > 0 {
            lemma_mask_count_split(m, (q - 1) as nat, 64);
            assert(64 * (q - 1) + 64 == 64 * q);
        }
    } else {
        lemma_mask_count_split(m, q, (r - 1) as nat);
        let k: u8 = (64 * q + r - 1) as u8;
        assert(k / 64 == q);
        assert(k % 64 == r - 1);
    }
}

pub proof fn lemma_mask_count_bound(m: [u64; 4], n: nat)
    ensures
        mask_count_below(m, n) <= n,
    decreases n,
{
    if n > 0 {
        lemma_mask_count_bound(m, (n - 1) as nat);
    }
}

pub proof fn lemma_mask_len_bound(m: [u64; 4])
    ensures
        mask_len(m) <= 256,
{
    lemma_mask_count_bound(m, 256);
}

/// Bytes of `x` that are not in `y`.
pub fn byte_mask_subtract(x: [u64; 4], y: [u64; 4]) -> (r: [u64; 4])
    ensures
        mask_view(r) == mask_view(x).difference(mask_view(y)),
{
    let r = [x[0] & !y[0], x[1] & !y[1], x[2] & !y[2], x[3] & !y[3]];
    assert forall|k: u8| mask_has(r, k) == (mask_has(x, k) && !mask_has(y, k)) by {
        let w = (k / 64) as int;
        let i = (k % 64) as u64;
        let a = x[w];
        let b = y[w];
        assert((a & !b) & (1u64 << i) != 0 <==> (a & (1u64 << i) != 0 && b & (1u64 << i) == 0))
            by (bit_vector);
    }
    assert(mask_view(r) =~= mask_view(x).difference(mask_view(y)));
    r
}

/// Bytes that are in both `x` and `y`.
pub fn byte_mask_meet(x: [u64; 4], y: [u64; 4]) -> (r: [u64; 4])
    ensures
        mask_view(r) == mask_view(x).intersect(mask_view(y)),
{
    let r = [x[0] & y[0], x[1] & y[1], x[2] & y[2], x[3] & y[3]];
    assert forall|k: u8| mask_has(r, k) == (mask_has(x, k) && mask_has(y, k)) by {
        let w = (k / 64) as int;
        let i = (k % 64) as u64;
        let a = x[w];
        let b = y[w];
        assert((a & b) & (1u64 << i) != 0 <==> (a & (1u64 << i) != 0 && b & (1u64 << i) != 0))
            by (bit_vector);
    }
    assert(mask_view(r) =~= mask_view(x).intersect(mask_view(y)));
    r
}

/// Bytes that are in `x` or in `y`.
pub fn byte_mask_join(x: [u64; 4], y: [u64; 4]) -> (r: [u64; 4])
    ensures
        mask_view(r) == mask_view(x).union(mask_view(y)),
{
    let r = [x[0] | y[0], x[1] | y[1], x[2] | y[2], x[3] | y[3]];
    assert forall|k: u8| mask_has(r, k) == (mask_has(x, k) || mask_has(y, k)) by {
        let w = (k / 64) as int;
        let i = (k % 64) as u64;
        let a = x[w];
        let b = y[w];
        assert((a | b) & (1u64 << i) != 0 <==> (a & (1u64 << i) != 0 || b & (1u64 << i) != 0))
            by (bit_vector);
    }
    assert(mask_view(r) =~= mask_view(x).union(mask_view(y)));
    r
}

/// Number of bytes in the mask that are strictly smaller than `pos`.
pub fn byte_mask_left(x: [u64; 4], pos: u8) -> (r: u8)
    ensures
        r == mask_count_below(x, pos as nat),
{
    if pos == 0 {
        return 0;
    }
    let j: u64 = ((pos - 1) & 0b00111111) as u64;
    proof {
        let p1: u8 = (pos - 1) as u8;
        assert(p1 & 0b00111111u8 == p1 % 64) by (bit_vector);
        assert(j == (pos - 1) % 64);
    }
    let m = !0u64 >> (63 - j);
    proof {
        lemma_bits_below_low_mask(x[0], j, 64);
        lemma_bits_below_low_mask(x[1], j, 64);
        lemma_bits_below_low_mask(x[2], j, 64);
        lemma_bits_below_low_mask(x[3], j, 64);
        lemma_bits_below_bound(x[0], 64);
        lemma_bits_below_bound(x[1], 64);
        lemma_bits_below_bound(x[2], 64);
        lemma_bits_below_bound(x[3], 64);
        lemma_bits_below_bound(x[0], (j + 1) as nat);
        lemma_bits_below_bound(x[1], (j + 1) as nat);
        lemma_bits_below_bound(x[2], (j + 1) as nat);
        lemma_bits_below_bound(x[3], (j + 1) as nat);
        reveal_with_fuel(words_full, 4);
    }
    let mut c = 0u8;
    if pos > 0b01000000 {
        c += count_ones(x[0]) as u8;
    } else {
        proof { lemma_mask_count_split(x, 0, pos as nat); }
        return c + count_ones(x[0] & m) as u8;
    }
    if pos > 0b10000000 {
        c += count_ones(x[1]) as u8;
    } else {
        proof { lemma_mask_count_split(x, 1, (pos - 64) as nat); }
        return c + count_ones(x[1] & m) as u8;
    }
    if pos > 0b11000000 {
        c += count_ones(x[2]) as u8;
    } else {
        proof { lemma_mask_count_split(x, 2, (pos - 128) as nat); }
        return c + count_ones(x[2] & m) as u8;
    }
    proof { lemma_mask_count_split(x, 3, (pos - 192) as nat); }
    c + count_ones(x[3] & m) as u8
}

/// Whether byte `k` is in the mask.
pub fn byte_mask_contains(x: [u64; 4], k: u8) -> (r: bool)
    ensures
        r == mask_has(x, k),
        r == mask_view(x).contains(k),
{
    proof { lemma_byte_index(k); }
    0 != (x[((k & 0b11000000) >> 6) as usize] & (1u64 << (k & 0b00111111)))
}

/// Adds byte `k` to the mask.
pub fn byte_mask_set(x: &mut [u64; 4], k: u8)
    ensures
        mask_view(*final(x)) == mask_view(*old(x)).insert(k),
{
    proof { lemma_byte_index(k); }
    let w = ((k & 0b11000000) >> 6) as usize;
    let t = k & 0b00111111;
    let nw = x[w] | (1u64 << t);
    let ghost ox = *x;
    x[w] = nw;
    let ghost nx = *x;
    assert forall|c: u8| #[trigger] mask_has(nx, c) == (mask_has(ox, c) || c == k) by {
        let cw = (c / 64) as int;
        let ci = (c % 64) as u64;
        let a = ox[cw];
        if c == k {
            assert(cw == w);
        }
        if cw == w {
            let tt = t as u64;
            assert((a | (1u64 << tt)) & (1u64 << ci) != 0 <==> (a & (1u64 << ci) != 0 || ci == tt))
                by (bit_vector)
                requires
                    tt < 64,
                    ci < 64,
            ;
        }
    }
    assert(mask_view(nx) =~= mask_view(ox).insert(k));
}

/// Removes byte `k` from the mask.
pub fn byte_mask_clear(x: &mut [u64; 4], k: u8)
    ensures
        mask_view(*final(x)) == mask_view(*old(x)).remove(k),
{
    proof { lemma_byte_index(k); }
    let w = ((k & 0b11000000) >> 6) as usize;
    let t = k & 0b00111111;
    let nw = x[w] & !(1u64 << t);
    let ghost ox = *x;
    x[w] = nw;
    assert forall|c: u8| mask_has(*x, c) == (mask_has(ox, c) && c != k) by {
        let cw = (c / 64) as int;
        let ci = (c % 64) as u64;
        let a = ox[cw];
        if cw == w {
            let tt = t as u64;
            assert((a & !(1u64 << tt)) & (1u64 << ci) != 0 <==> (a & (1u64 << ci) != 0 && ci != tt))
                by (bit_vector)
                requires
                    tt < 64,
                    ci < 64,
            ;
        }
    }
    assert(mask_view(*x) =~= mask_view(ox).remove(k));
}


/// Builds a byte mask holding exactly the given bytes.
pub fn byte_mask_from_iter(iter: &[u8]) -> (r: [u64; 4])
    ensures
        forall|k: u8| mask_has(r, k) <==> iter@.contains(k),
{
    let mut m = [0u64; 4];
    proof {
        assert forall|k: u8| !mask_has(m, k) by {
            let w = (k / 64) as int;
            let i = (k % 64) as u64;
            assert(0u64 & (1u64 << i) == 0) by (bit_vector);
        }
    }
    let mut idx: usize = 0;
    while idx < iter.len()
        invariant
            idx <= iter@.len(),
            forall|k: u8| mask_has(m, k) <==> iter@.take(idx as int).contains(k),
        decreases iter@.len() - idx,
    {
        let ghost pm = m;
        byte_mask_set(&mut m, iter[idx]);
        proof {
            let s0 = iter@.take(idx as int);
            let s1 = iter@.take(idx + 1);
            assert(s1 == s0.push(iter@[idx as int]));
            assert forall|k: u8| mask_has(m, k) <==> s1.contains(k) by {
                assert(mask_view(m).contains(k) == mask_view(pm).insert(iter@[idx as int]).contains(k));
                assert(mask_has(pm, k) <==> s0.contains(k));
                if mask_has(m, k) && k != iter@[idx as int] {
                    assert(s0.contains(k));
                }
                if k == iter@[idx as int] {
                    assert(s1[idx as int] == k);
                }
                if s0.contains(k) {
                    let j = choose|j: int| 0 <= j < s0.len() && #[trigger] s0[j] == k;
                    assert(s1[j] == k);
                }
                if s1.contains(k) {
                    let j = choose|j: int| 0 <= j < s1.len() && #[trigger] s1[j] == k;
                    if j < idx {
                        assert(s0[j] == k);
                    }
                }
            }
        }
        idx += 1;
    }
    assert(iter@.take(iter@.len() as int) == iter@);
    m
}

/// Visits each byte of a byte mask in increasing order.
pub struct ByteMaskIter {
    i: u8,
    mask: [u64; 4],
}

impl ByteMaskIter {
    #[verifier::type_invariant]
    spec fn inv(self) -> bool {
        &&& self.i <= 3
        &&& forall|w: int| 0 <= w < self.i ==> #[trigger] self.mask[w] == 0
    }

    /// The bytes that are still to be visited.
    pub closed spec fn remaining(self) -> Set<u8> {
        mask_view(self.mask)
    }

    /// The iterator state at the start of a visit of `mask`.
    pub closed spec fn initial(mask: [u64; 4]) -> Self {
        ByteMaskIter { i: 0, mask }
    }

    /// A visit that starts at `mask` has all the bytes of `mask` still to visit.
    pub proof fn lemma_initial(mask: [u64; 4])
        ensures
            Self::initial(mask).remaining() == mask_view(mask),
    {
    }

    /// Makes a new `ByteMaskIter` from a mask.
    pub fn new(mask: [u64; 4]) -> (r: Self)
        ensures
            r.remaining() == mask_view(mask),
    {
        Self { i: 0, mask }
    }

    /// Returns the smallest byte not yet visited, and removes it; `None` once all are visited.
    pub fn next(&mut self) -> (r: Option<u8>)
        ensures
            r matches Some(b) ==> {
                &&& old(self).remaining().contains(b)
                &&& forall|c: u8| old(self).remaining().contains(c) ==> b <= c
                &&& final(self).remaining() == old(self).remaining().remove(b)
            },
            r is None ==> {
                &&& old(self).remaining() == Set::<u8>::empty()
                &&& final(self).remaining() == old(self).remaining()
            },
            next_step(old(self).remaining(), r, final(self).remaining()),
    {
        proof { use_type_invariant(&*self); }
        let ghost om = self.mask;
        loop
            invariant
                self.i <= 3,
                forall|w: int| 0 <= w < self.i ==> #[trigger] self.mask[w] == 0,
                self.mask == om,
                om == old(self).mask,
            decreases 3 - self.i,
        {
            let i = self.i;
            let w = self.mask[i as usize];
            if w != 0 {
                let wi = w.trailing_zeros();
                proof {
                    axiom_u64_trailing_zeros(w);
                }
                let t = wi as u8;
                let nw = w ^ (1u64 << t);
                self.mask[i as usize] = nw;
                let index = i * 64 + t;
                proof {
                    let tt = t as u64;
                    assert(tt < 64);
                    assert((w >> tt) & 1u64 == 1u64 ==> w & (1u64 << tt) != 0) by (bit_vector);
                    assert(index / 64 == i && index % 64 == t);
                    assert forall|c: u8| #[trigger] mask_has(self.mask, c) == (mask_has(om, c) && c != index) by {
                        let cw = (c / 64) as int;
                        let ci = (c % 64) as u64;
                        if cw == i {
                            assert((w ^ (1u64 << tt)) & (1u64 << ci) != 0 <==> (w & (1u64 << ci) != 0 && ci != tt))
                                by (bit_vector)
                                requires
                                    tt < 64,
                                    ci < 64,
                                    w & (1u64 << tt) != 0,
                            ;
                        }
                    }
                    assert(mask_view(self.mask) =~= mask_view(om).remove(index));
                    assert(self.remaining() == mask_view(om).remove(index));
                    assert forall|c: u8| mask_has(om, c) implies index <= c by {
                        let cw = (c / 64) as int;
                        let ci = (c % 64) as u64;
                        if cw < i {
                            assert(om[cw] == 0);
                            assert(0u64 & (1u64 << ci) == 0) by (bit_vector);
                        } else if cw == i {
                            if ci < tt {
                                assert((w >> ci) & 1u64 == 0u64);
                                assert((w >> ci) & 1u64 == 0u64 ==> w & (1u64 << ci) == 0) by (bit_vector);
                            }
                        }
                    }
                }
                return Some(index);
            } else if i < 3 {
                self.i = i + 1;
            } else {
                proof {
                    assert forall|c: u8| !mask_has(om, c) by {
                        let cw = (c / 64) as int;
                        let ci = (c % 64) as u64;
                        assert(om[cw] == 0);
                        assert(0u64 & (1u64 << ci) == 0) by (bit_vector);
                    }
                    assert(mask_view(om) =~= Set::<u8>::empty());
                    assert(self.remaining() == mask_view(om));
                }
                return None;
            }
        }
    }
}

impl From<[u64; 4]> for ByteMaskIter {
    fn from(mask: [u64; 4]) -> (r: Self) {
        ByteMaskIter { i: 0, mask }
    }
}

impl vstd::std_specs::convert::FromSpecImpl<[u64; 4]> for ByteMaskIter {
    open spec fn obeys_from_spec() -> bool {
        true
    }

    open spec fn from_spec(v: [u64; 4]) -> Self {
        ByteMaskIter::initial(v)
    }
}

/// Conversion of a byte mask into a [`ByteMaskIter`].
pub trait IntoByteMaskIter {
    spec fn mask_of(&self) -> [u64; 4];

    fn byte_mask_iter(self) -> (r: ByteMaskIter)
        ensures
            r.remaining() == mask_view(self.mask_of()),
    ;
}

impl IntoByteMaskIter for [u64; 4] {
    open spec fn mask_of(&self) -> [u64; 4] {
        *self
    }

    fn byte_mask_iter(self) -> (r: ByteMaskIter) {
        ByteMaskIter::new(self)
    }
}

impl<'a> IntoByteMaskIter for &'a [u64; 4] {
    open spec fn mask_of(&self) -> [u64; 4] {
        **self
    }

    fn byte_mask_iter(self) -> (r: ByteMaskIter) {
        ByteMaskIter::new(*self)
    }
}


/// The smallest byte of the mask greater than `b`.
pub fn byte_mask_next_bit(x: [u64; 4], b: u8) -> (r: Option<u8>)
    ensures
        r matches Some(c) ==> c > b && mask_has(x, c) && forall|d: u8| b < d < c ==> !#[trigger] mask_has(x, d),
        r is None ==> forall|d: u8| d > b ==> !#[trigger] mask_has(x, d),
{
    let mut c: u16 = b as u16 + 1;
    while c < 256
        invariant
            b < c <= 256,
            forall|d: u8| b < d < c ==> !#[trigger] mask_has(x, d),
        decreases 256 - c,
    {
        if byte_mask_contains(x, c as u8) {
            return Some(c as u8);
        }
        c += 1;
    }
    None
}

/// The greatest byte of the mask smaller than `b`.
pub fn byte_mask_prev_bit(x: [u64; 4], b: u8) -> (r: Option<u8>)
    ensures
        r matches Some(c) ==> c < b && mask_has(x, c) && forall|d: u8| c < d < b ==> !#[trigger] mask_has(x, d),
        r is None ==> forall|d: u8| d < b ==> !#[trigger] mask_has(x, d),
{
    let mut c: u8 = b;
    while c > 0
        invariant
            c <= b,
            forall|d: u8| c <= d < b ==> !#[trigger] mask_has(x, d),
        decreases c,
    {
        c -= 1;
        if byte_mask_contains(x, c) {
            return Some(c);
        }
    }
    None
}

/// The byte of the mask that has exactly `idx` smaller bytes in the mask.
pub fn byte_mask_indexed_bit(x: [u64; 4], idx: usize) -> (r: Option<u8>)
    ensures
        r matches Some(c) ==> mask_has(x, c) && mask_count_below(x, c as nat) == idx,
        r is None ==> mask_len(x) <= idx,
{
    let mut c: u16 = 0;
    let mut seen: usize = 0;
    while c < 256
        invariant
            c <= 256,
            seen == mask_count_below(x, c as nat),
            seen <= idx,
        decreases 256 - c,
    {
        if byte_mask_contains(x, c as u8) {
            if seen == idx {
                return Some(c as u8);
            }
            seen += 1;
        }
        c += 1;
    }
    None
}

/// The number of bytes in the mask.
pub fn byte_mask_count_bits(x: [u64; 4]) -> (r: usize)
    ensures
        r == mask_len(x),
{
    proof {
        lemma_bits_below_bound(x[0], 64);
        lemma_bits_below_bound(x[1], 64);
        lemma_bits_below_bound(x[2], 64);
        lemma_bits_below_bound(x[3], 64);
        lemma_mask_count_split(x, 3, 64);
        assert(64 * 3 + 64 == 256);
        reveal_with_fuel(words_full, 4);
    }
    (count_ones(x[0]) + count_ones(x[1]) + count_ones(x[2]) + count_ones(x[3])) as usize
}

/// One call of [`ByteMaskIter::next`]: from the bytes `before` still to visit, it returns `r`
/// and leaves the bytes `after`.
pub open spec fn next_step(before: Set<u8>, r: Option<u8>, after: Set<u8>) -> bool {
    match r {
        Some(b) => before.contains(b) && (forall|c: u8| before.contains(c) ==> b <= c) && after == before.remove(b),
        None => before == Set::<u8>::empty() && after == before,
    }
}

/// The calls of a walk follow one another as `next` does.
pub open spec fn walk_steps(rem: Seq<Set<u8>>, outs: Seq<Option<u8>>) -> bool {
    &&& rem.len() == outs.len() + 1
    &&& forall|i: int| 0 <= i < outs.len() ==> next_step(#[trigger] rem[i], outs[i], rem[i + 1])
}

/// The bytes left only shrink.
proof fn lemma_walk_shrinks(rem: Seq<Set<u8>>, outs: Seq<Option<u8>>, n: int)
    requires
        walk_steps(rem, outs),
        0 <= n <= outs.len(),
    ensures
        forall|i: int| 0 <= i <= n ==> rem[n].subset_of(#[trigger] rem[i]),
    decreases n,
{
    if n > 0 {
        lemma_walk_shrinks(rem, outs, n - 1);
        assert(next_step(rem[n - 1], outs[n - 1], rem[n]));
        assert(rem[n].subset_of(rem[n - 1]));
    }
}

/// The bytes at the start are those left and those returned.
proof fn lemma_walk_cover(rem: Seq<Set<u8>>, outs: Seq<Option<u8>>, n: int)
    requires
        walk_steps(rem, outs),
        0 <= n <= outs.len(),
    ensures
        forall|b: u8| #[trigger] rem[0].contains(b) <==> (rem[n].contains(b)
            || exists|i: int| 0 <= i < n && #[trigger] outs[i] == Some(b)),
    decreases n,
{
    if n > 0 {
        let k = n - 1;
        lemma_walk_cover(rem, outs, k);
        assert(next_step(rem[k], outs[k], rem[n]));
        assert forall|b: u8| #[trigger] rem[0].contains(b) <==> (rem[n].contains(b)
            || exists|i: int| 0 <= i < n && #[trigger] outs[i] == Some(b)) by {
            if exists|i: int| 0 <= i < n && #[trigger] outs[i] == Some(b) {
                let i = choose|i: int| 0 <= i < n && #[trigger] outs[i] == Some(b);
                if i < k {
                    assert(exists|i2: int| 0 <= i2 < k && #[trigger] outs[i2] == Some(b));
                } else {
                    assert(rem[k].contains(b));
                }
            }
            if rem[0].contains(b) && !rem[n].contains(b) {
                if rem[k].contains(b) {
                    assert(outs[k] == Some(b));
                } else {
                    let i = choose|i: int| 0 <= i < k && #[trigger] outs[i] == Some(b);
                    assert(0 <= i < n && outs[i] == Some(b));
                }
            }
        }
    }
}

/// Every byte returned is below every byte left.
proof fn lemma_walk_below(rem: Seq<Set<u8>>, outs: Seq<Option<u8>>, n: int)
    requires
        walk_steps(rem, outs),
        0 <= n <= outs.len(),
    ensures
        forall|i: int, c: u8| 0 <= i < n && (#[trigger] outs[i]) is Some && #[trigger] rem[n].contains(c) ==> outs[i].unwrap() < c,
    decreases n,
{
    if n > 0 {
        let k = n - 1;
        lemma_walk_below(rem, outs, k);
        assert(next_step(rem[k], outs[k], rem[n]));
        assert forall|i: int, c: u8| 0 <= i < n && (#[trigger] outs[i]) is Some && #[trigger] rem[n].contains(c) implies outs[i].unwrap() < c by {
            assert(rem[k].contains(c));
        }
    }
}

/// Repeated calls of [`ByteMaskIter::next`] return the bytes still to visit in strictly
/// increasing order, each once, then `None` on that and every later call; the bytes returned
/// and those left are together the bytes there were at the start.
pub proof fn law_mask_walk(rem: Seq<Set<u8>>, outs: Seq<Option<u8>>)
    requires
        walk_steps(rem, outs),
    ensures
        forall|i: int, j: int| 0 <= i < j < outs.len() && outs[i] is Some && outs[j] is Some
            ==> (#[trigger] outs[i]).unwrap() < (#[trigger] outs[j]).unwrap(),
        forall|i: int, j: int| 0 <= i <= j < outs.len() && (#[trigger] outs[i]) is None ==> (#[trigger] outs[j]) is None,
        forall|b: u8| #[trigger] rem[0].contains(b) <==> (rem[outs.len() as int].contains(b)
            || exists|i: int| 0 <= i < outs.len() && #[trigger] outs[i] == Some(b)),
{
    let n = outs.len() as int;
    lemma_walk_cover(rem, outs, n);
    assert forall|i: int, j: int| 0 <= i < j < n && outs[i] is Some && outs[j] is Some
        implies (#[trigger] outs[i]).unwrap() < (#[trigger] outs[j]).unwrap() by {
        lemma_walk_below(rem, outs, j);
        assert(next_step(rem[j], outs[j], rem[j + 1]));
        assert(rem[j].contains(outs[j].unwrap()));
    }
    assert forall|i: int, j: int| 0 <= i <= j < n && (#[trigger] outs[i]) is None implies (#[trigger] outs[j]) is None by {
        if i < j {
            lemma_walk_shrinks(rem, outs, j);
            assert(next_step(rem[i], outs[i], rem[i + 1]));
            assert(rem[j].subset_of(rem[i + 1]));
            assert(next_step(rem[j], outs[j], rem[j + 1]));
            if outs[j] is Some {
                assert(rem[j].contains(outs[j].unwrap()));
            }
        }
    }
}

/// A mask made from any list of bytes that holds exactly the bytes of `m` (such as the bytes
/// that a walk of `m` returns) is `m` itself.
pub proof fn law_from_iter_roundtrip(m: [u64; 4], bytes: Seq<u8>, r: [u64; 4])
    requires
        forall|k: u8| #[trigger] bytes.contains(k) <==> mask_has(m, k),
        forall|k: u8| #[trigger] mask_has(r, k) <==> bytes.contains(k),
    ensures
        r == m,
{
    assert(mask_view(r) =~= mask_view(m)) by {
        assert forall|k: u8| mask_view(r).contains(k) == mask_view(m).contains(k) by {
            assert(mask_has(r, k) == bytes.contains(k));
        }
    }
    law_mask_view_determines(r, m);
}

} // verus!
