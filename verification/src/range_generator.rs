//! Builds tries that hold arithmetic progressions of big-endian numbers.

use vstd::prelude::*;
use crate::dense_byte_node::{DenseByteNode, TrieNodeODRc};
use crate::trie_map::{bounded, entries_at, entries_from};

verus! {

/// `256^n`.
pub open spec fn pow256(n: nat) -> nat
    decreases n,
{
    if n == 0 {
        1
    } else {
        256 * pow256((n - 1) as nat)
    }
}

/// The `n` big-endian bytes of `v` (the low `n` bytes of `v`).
pub open spec fn be_bytes(v: nat, n: nat) -> Seq<u8>
    decreases n,
{
    if n == 0 {
        Seq::empty()
    } else {
        be_bytes(v / 256, (n - 1) as nat).push((v % 256) as u8)
    }
}

/// The number whose big-endian bytes are `s`.
pub open spec fn be_value(s: Seq<u8>) -> nat
    decreases s.len(),
{
    if s.len() == 0 {
        0
    } else {
        be_value(s.drop_last()) * 256 + s.last() as nat
    }
}

pub proof fn lemma_be_value_bound(s: Seq<u8>)
    ensures
        be_value(s) < pow256(s.len()),
    decreases s.len(),
{
    if s.len() > 0 {
        lemma_be_value_bound(s.drop_last());
        assert(be_value(s.drop_last()) * 256 + s.last() < pow256(s.len())) by (nonlinear_arith)
            requires
                be_value(s.drop_last()) < pow256(s.drop_last().len()),
                s.last() < 256,
                pow256(s.len()) == 256 * pow256(s.drop_last().len()),
        ;
    }
}

/// Putting a byte in front of `u` adds that byte times `256^len(u)`.
pub proof fn lemma_be_value_prepend(k: u8, u: Seq<u8>)
    ensures
        be_value(seq![k] + u) == k * pow256(u.len()) + be_value(u),
    decreases u.len(),
{
    let w = seq![k] + u;
    if u.len() == 0 {
        assert(w =~= seq![k]);
        assert(w.drop_last() =~= Seq::<u8>::empty());
        assert(be_value(w) == be_value(w.drop_last()) * 256 + w.last());
        assert(be_value(w) == k);
        assert(pow256(0) == 1);
    } else {
        assert(w.drop_last() =~= seq![k] + u.drop_last());
        lemma_be_value_prepend(k, u.drop_last());
        let p = pow256(u.drop_last().len());
        let b = be_value(u.drop_last());
        assert(w.last() == u.last());
        assert(be_value(w) == be_value(w.drop_last()) * 256 + w.last());
        assert(be_value(u) == b * 256 + u.last());
        assert(pow256(u.len()) == 256 * p);
        assert((k * p + b) * 256 + u.last() == k * (256 * p) + (b * 256 + u.last())) by (nonlinear_arith);
    }
}

/// The number of a key is its first byte times `256^(len - 1)` plus the number of the rest.
pub proof fn lemma_be_value_first(u: Seq<u8>)
    requires
        u.len() >= 1,
    ensures
        be_value(u) == u[0] * pow256((u.len() - 1) as nat) + be_value(u.drop_first()),
        be_value(u.drop_first()) < pow256((u.len() - 1) as nat),
{
    assert(u =~= seq![u[0]] + u.drop_first());
    lemma_be_value_prepend(u[0], u.drop_first());
    lemma_be_value_bound(u.drop_first());
}

/// Numbers of keys of one length compare as the keys do: first by the first byte, then by
/// the rest.
pub proof fn lemma_be_value_order(u: Seq<u8>, w: Seq<u8>)
    requires
        u.len() == w.len(),
        u.len() >= 1,
    ensures
        u[0] < w[0] ==> be_value(u) < be_value(w),
        u[0] == w[0] ==> (be_value(u) < be_value(w) <==> be_value(u.drop_first()) < be_value(w.drop_first())),
{
    lemma_be_value_first(u);
    lemma_be_value_first(w);
    let p = pow256((u.len() - 1) as nat);
    let a = be_value(u.drop_first());
    let b = be_value(w.drop_first());
    let x = u[0] as int;
    let y = w[0] as int;
    if x < y {
        assert(x * p + a < y * p + b) by (nonlinear_arith)
            requires
                x < y,
                a < p,
                0 <= b,
        ;
    }
}

/// The `n` big-endian bytes of `v` spell `v` back when `v` fits in them.
pub proof fn lemma_be_bytes_value(v: nat, n: nat)
    requires
        v < pow256(n),
    ensures
        be_bytes(v, n).len() == n,
        be_value(be_bytes(v, n)) == v,
    decreases n,
{
    if n > 0 {
        let p = pow256((n - 1) as nat);
        assert(v / 256 < p) by (nonlinear_arith)
            requires
                v < 256 * p,
        ;
        lemma_be_bytes_value(v / 256, (n - 1) as nat);
        let s = be_bytes(v, n);
        assert(s.drop_last() =~= be_bytes(v / 256, (n - 1) as nat));
        vstd::arithmetic::div_mod::lemma_fundamental_div_mod(v as int, 256);
    }
}

/// The unsigned integer types that ranges are built over, `N` being the width in bytes.
pub trait UsefulNumber<const N: usize>: Copy {
    /// The number.
    spec fn val(self) -> nat;

    /// The largest number of the type.
    spec fn max_val() -> nat;

    /// The type holds exactly the numbers below `256^N`.
    proof fn lemma_width(self)
        ensures
            Self::max_val() + 1 == pow256(N as nat),
            self.val() <= Self::max_val(),
            1 <= N <= 16,
    ;

    /// The number as a `u128`.
    fn to_u128(self) -> (r: u128)
        ensures
            r == self.val(),
    ;

    /// The number `v`.
    fn from_u128(v: u128) -> (r: Self)
        requires
            v <= Self::max_val(),
        ensures
            r.val() == v,
    ;
}

impl UsefulNumber<1> for u8 {
    open spec fn val(self) -> nat {
        self as nat
    }

    open spec fn max_val() -> nat {
        u8::MAX as nat
    }

    proof fn lemma_width(self) {
        reveal_with_fuel(pow256, 2);
    }

    fn to_u128(self) -> (r: u128) {
        self as u128
    }

    fn from_u128(v: u128) -> (r: Self) {
        v as u8
    }
}

impl UsefulNumber<2> for u16 {
    open spec fn val(self) -> nat {
        self as nat
    }

    open spec fn max_val() -> nat {
        u16::MAX as nat
    }

    proof fn lemma_width(self) {
        reveal_with_fuel(pow256, 3);
    }

    fn to_u128(self) -> (r: u128) {
        self as u128
    }

    fn from_u128(v: u128) -> (r: Self) {
        v as u16
    }
}

impl UsefulNumber<4> for u32 {
    open spec fn val(self) -> nat {
        self as nat
    }

    open spec fn max_val() -> nat {
        u32::MAX as nat
    }

    proof fn lemma_width(self) {
        reveal_with_fuel(pow256, 5);
    }

    fn to_u128(self) -> (r: u128) {
        self as u128
    }

    fn from_u128(v: u128) -> (r: Self) {
        v as u32
    }
}

impl UsefulNumber<8> for u64 {
    open spec fn val(self) -> nat {
        self as nat
    }

    open spec fn max_val() -> nat {
        u64::MAX as nat
    }

    proof fn lemma_width(self) {
        reveal_with_fuel(pow256, 9);
    }

    fn to_u128(self) -> (r: u128) {
        self as u128
    }

    fn from_u128(v: u128) -> (r: Self) {
        v as u64
    }
}

impl UsefulNumber<16> for u128 {
    open spec fn val(self) -> nat {
        self as nat
    }

    open spec fn max_val() -> nat {
        u128::MAX as nat
    }

    proof fn lemma_width(self) {
        reveal_with_fuel(pow256, 17);
    }

    fn to_u128(self) -> (r: u128) {
        self
    }

    fn from_u128(v: u128) -> (r: Self) {
        v
    }
}

/// The `n` big-endian bytes of `v`.
fn be_bytes_of(v: u128, n: usize) -> (r: Vec<u8>)
    ensures
        r@ == be_bytes(v as nat, n as nat),
    decreases n,
{
    if n == 0 {
        Vec::new()
    } else {
        let mut r = be_bytes_of(v / 256, n - 1);
        r.push((v % 256) as u8);
        r
    }
}

/// The number whose big-endian bytes are `bytes` (`N` of them).
pub fn bytes_number<const N: usize, R: UsefulNumber<N>>(bytes: &[u8]) -> (r: R)
    requires
        bytes@.len() == N,
        1 <= N <= 16,
        R::max_val() + 1 == pow256(N as nat),
    ensures
        r.val() == be_value(bytes@),
{
    let mut acc: u128 = 0;
    let mut i: usize = 0;
    while i < bytes.len()
        invariant
            i <= bytes@.len(),
            bytes@.len() <= 16,
            acc == be_value(bytes@.take(i as int)),
        decreases bytes@.len() - i,
    {
        proof {
            let t = bytes@.take(i + 1);
            assert(t.drop_last() =~= bytes@.take(i as int));
            lemma_be_value_bound(t);
            lemma_pow256_mono(t.len(), 16);
            reveal_with_fuel(pow256, 17);
        }
        acc = acc * 256 + bytes[i] as u128;
        i += 1;
    }
    proof {
        assert(bytes@.take(bytes@.len() as int) =~= bytes@);
        lemma_be_value_bound(bytes@);
    }
    R::from_u128(acc)
}

pub proof fn lemma_pow256_mono(a: nat, b: nat)
    requires
        a <= b,
    ensures
        pow256(a) <= pow256(b),
    decreases b,
{
    if a < b {
        lemma_pow256_mono(a, (b - 1) as nat);
    }
}


/// The `k`-th term of the progression that starts at `offset` and goes up by `step`.
pub open spec fn ap(offset: nat, step: nat, k: nat) -> nat {
    offset + k * step
}

/// The number of terms of the progression from `i` by `step` that are below `limit`.
pub open spec fn ap_count(i: nat, step: nat, limit: nat) -> nat
    decreases (if i < limit { limit - i } else { 0 }) as nat,
{
    if i >= limit || step == 0 {
        0
    } else {
        1 + ap_count(i + step, step, limit)
    }
}

/// The bound below which `pattern` takes terms: `256 * step`, or the type's maximum when
/// 256 does not fit in the type.
pub open spec fn pattern_limit(max: nat, step: nat) -> nat {
    if max >= 256 {
        256 * step
    } else {
        max
    }
}

/// Every term below `limit` has a successor that fits in `max`.
pub open spec fn successors_fit(offset: nat, step: nat, limit: nat, max: nat) -> bool {
    forall|k: nat| #[trigger] ap(offset, step, k) < limit ==> ap(offset, step, k + 1) <= max
}

proof fn lemma_ap_step(offset: nat, step: nat, k: nat)
    ensures
        ap(offset, step, k + 1) == ap(offset, step, k) + step,
{
    assert((k + 1) * step == k * step + step) by (nonlinear_arith);
}

/// Returns the low byte of each term of the progression from `offset` by `step` that lies
/// below `256 * step` (below the type's maximum when 256 does not fit in the type).
pub fn pattern<const N: usize, R: UsefulNumber<N>>(step: R, offset: R) -> (r: Vec<u8>)
    requires
        offset.val() < step.val(),
        R::max_val() >= 256 ==> 256 * step.val() <= R::max_val(),
        successors_fit(offset.val(), step.val(), pattern_limit(R::max_val(), step.val()), R::max_val()),
    ensures
        r@.len() == ap_count(offset.val(), step.val(), pattern_limit(R::max_val(), step.val())),
        forall|j: int| 0 <= j < r@.len() ==> #[trigger] r@[j] == (ap(offset.val(), step.val(), j as nat) % 256) as u8,
{
    proof {
        step.lemma_width();
        lemma_pow256_mono(N as nat, 16);
        if N >= 2 {
            lemma_pow256_mono(2, N as nat);
        }
        reveal_with_fuel(pow256, 3);
        reveal_with_fuel(pow256, 17);
    }
    let s = step.to_u128();
    let o = offset.to_u128();
    let limit: u128 = if N >= 2 { 256 * s } else { 255 };
    let ghost lim = pattern_limit(R::max_val(), step.val());
    assert(limit == lim);
    let mut v: Vec<u8> = Vec::with_capacity(256);
    let mut i = o;
    while i < limit
        invariant
            s == step.val(),
            o == offset.val(),
            s > 0,
            limit == lim,
            i == ap(o as nat, s as nat, v@.len()),
            ap_count(o as nat, s as nat, lim) == v@.len() + ap_count(i as nat, s as nat, lim),
            successors_fit(o as nat, s as nat, lim, R::max_val()),
            R::max_val() < pow256(16),
            forall|j: int| 0 <= j < v@.len() ==> #[trigger] v@[j] == (ap(o as nat, s as nat, j as nat) % 256) as u8,
        decreases ap_count(i as nat, s as nat, lim),
    {
        proof {
            lemma_ap_step(o as nat, s as nat, v@.len());
            assert(ap(o as nat, s as nat, v@.len()) < lim);
            reveal_with_fuel(pow256, 17);
        }
        v.push((i % 256) as u8);
        i = i + s;
    }
    v
}


/// The run lengths of the block numbers (`term / 256`) of the terms from `i` by `step` below
/// `limit`, continuing a run of `count` terms in block `last`.
pub open spec fn block_runs(i: nat, step: nat, limit: nat, last: nat, count: nat) -> Seq<usize>
    decreases (if i < limit { limit - i } else { 0 }) as nat,
{
    if i >= limit || step == 0 {
        seq![count as usize]
    } else if i / 256 == last {
        block_runs(i + step, step, limit, last, count + 1)
    } else {
        seq![count as usize] + block_runs(i + step, step, limit, i / 256, 1)
    }
}

/// Returns, for the terms of the progression from `offset` by `step` below `256 * step`, the
/// lengths of the runs of terms that share a block of 256 numbers, starting in block 0.
pub fn repetition<const N: usize, R: UsefulNumber<N>>(step: R, offset: R) -> (r: Vec<usize>)
    requires
        offset.val() < step.val(),
        R::max_val() >= 256,
        256 * step.val() <= R::max_val(),
        successors_fit(offset.val(), step.val(), 256 * step.val(), R::max_val()),
    ensures
        r@ == block_runs(offset.val(), step.val(), 256 * step.val(), 0, 0),
        step.val() <= 256 ==> r@ == block_counts(offset.val(), step.val()),
{
    proof {
        step.lemma_width();
        lemma_pow256_mono(N as nat, 16);
        reveal_with_fuel(pow256, 17);
    }
    let s = step.to_u128();
    let o = offset.to_u128();
    let limit: u128 = 256 * s;
    let mut result: Vec<usize> = Vec::new();
    let mut last: u128 = 0;
    let mut count: usize = 0;
    let mut i = o;
    let ghost mut k: nat = 0;
    while i < limit
        invariant
            s == step.val(),
            o == offset.val(),
            s > 0,
            limit == 256 * s,
            i == ap(o as nat, s as nat, k),
            count <= k,
            k * s <= i,
            successors_fit(o as nat, s as nat, limit as nat, R::max_val()),
            R::max_val() < pow256(16),
            result@ + block_runs(i as nat, s as nat, limit as nat, last as nat, count as nat)
                == block_runs(o as nat, s as nat, limit as nat, 0, 0),
        decreases ap_count(i as nat, s as nat, limit as nat),
    {
        proof {
            lemma_ap_step(o as nat, s as nat, k);
            assert(k < 256) by (nonlinear_arith)
                requires
                    k * s <= i,
                    i < 256 * s,
                    s > 0,
            ;
            assert((k + 1) * s == k * s + s) by (nonlinear_arith);
            assert(ap(o as nat, s as nat, k) < limit);
            reveal_with_fuel(pow256, 17);
        }
        let xb = i / 256;
        if xb == last {
            count += 1;
        } else {
            let ghost before = result@;
            last = xb;
            result.push(count);
            count = 1;
            proof {
                assert(before + seq![(count - 1) as usize] + block_runs((i + s) as nat, s as nat, limit as nat, last as nat, 1)
                    =~= before + (seq![(count - 1) as usize] + block_runs((i + s) as nat, s as nat, limit as nat, last as nat, 1)));
            }
        }
        i = i + s;
        proof {
            k = k + 1;
        }
    }
    let ghost before = result@;
    result.push(count);
    proof {
        let on = offset.val();
        let sn = step.val();
        if sn <= 256 {
            lemma_ap_count_total(on, sn);
            assert(result@ == block_runs(on, sn, 256 * sn, 0, 0));
            assert(ap_count(on, sn, 0) == 0);
            lemma_block_runs(on, sn, 0, 0, 0);
            assert(on + 0 * sn == on);
            assert(Seq::new((sn - 1 - 0) as nat, |t: int| block_count(on, sn, (0 + 1 + t) as nat) as usize)
                =~= block_counts(on, sn).drop_first());
            assert(result@ =~= block_counts(on, sn));
        }
    }
    result
}

/// `b` is the length of a border of `xs[..m]`: a proper prefix that is also a suffix.
pub open spec fn is_border(xs: Seq<usize>, m: int, b: int) -> bool {
    &&& 0 <= b < m <= xs.len()
    &&& forall|u: int| 0 <= u < b ==> #[trigger] xs[u] == xs[m - b + u]
}

/// `xs` repeats with period `p`.
pub open spec fn has_period(xs: Seq<usize>, p: int) -> bool {
    forall|u: int| 0 <= u < xs.len() - p ==> #[trigger] xs[u] == xs[u + p]
}

/// A border of a border is a border.
proof fn lemma_border_trans(xs: Seq<usize>, m: int, j: int, b: int)
    requires
        is_border(xs, m, j),
        is_border(xs, j, b),
    ensures
        is_border(xs, m, b),
{
    assert forall|u: int| 0 <= u < b implies #[trigger] xs[u] == xs[m - b + u] by {
        assert(xs[u] == xs[j - b + u]);
        assert(xs[j - b + u] == xs[m - j + (j - b + u)]);
    }
}

/// A border shorter than another border is a border of that border.
proof fn lemma_border_of_border(xs: Seq<usize>, m: int, j: int, c: int)
    requires
        is_border(xs, m, j),
        is_border(xs, m, c),
        c < j,
    ensures
        is_border(xs, j, c),
{
    assert forall|u: int| 0 <= u < c implies #[trigger] xs[u] == xs[j - c + u] by {
        assert(xs[u] == xs[m - c + u]);
        assert(xs[j - c + u] == xs[m - j + (j - c + u)]);
    }
}

/// A border of `xs[..m + 1]` of length `b > 0` gives a border of `xs[..m]` of length `b - 1`
/// whose next element matches `xs[m]`.
proof fn lemma_border_shrink(xs: Seq<usize>, m: int, b: int)
    requires
        is_border(xs, m + 1, b),
        b > 0,
    ensures
        is_border(xs, m, b - 1),
        xs[b - 1] == xs[m],
{
    assert(xs[b - 1] == xs[m + 1 - b + (b - 1)]);
    assert forall|u: int| 0 <= u < b - 1 implies #[trigger] xs[u] == xs[m - (b - 1) + u] by {
        assert(xs[u] == xs[m + 1 - b + u]);
    }
}

/// `p` is the smallest period of `xs`: `xs` repeats with period `p` and with no smaller one.
pub open spec fn smallest_period(xs: Seq<usize>, p: int) -> bool {
    &&& 1 <= p <= xs.len()
    &&& has_period(xs, p)
    &&& forall|q: int| 1 <= q < p ==> !#[trigger] has_period(xs, q)
}

/// Splits `xs` into repetitions of its smallest period: returns the length of `xs` and the
/// first period when the smallest period divides the length, `(1, xs)` otherwise, and `(0, [])`
/// for an empty `xs`.
pub fn decompose_seq(xs: &[usize]) -> (r: (usize, &[usize]))
    ensures
        xs@.len() == 0 ==> r.0 == 0 && r.1@.len() == 0,
        xs@.len() > 0 ==> exists|p: int| #[trigger] smallest_period(xs@, p) && if (xs@.len() as int) % p == 0 {
            r.0 == xs@.len() && r.1@ == xs@.take(p)
        } else {
            r.0 == 1 && r.1@ == xs@
        },
{
    let n = xs.len();
    if n == 0 {
        return (0, vstd::slice::slice_subrange(xs, 0, 0));
    }
    let mut pi: Vec<usize> = Vec::new();
    pi.push(0);
    let mut i: usize = 1;
    while i < n
        invariant
            n == xs@.len(),
            1 <= i <= n,
            pi@.len() == i,
            forall|t: int| 0 <= t < i ==> is_border(xs@, t + 1, #[trigger] pi@[t] as int),
            forall|m: int, c: int| 1 <= m <= i && #[trigger] is_border(xs@, m, c) ==> c <= pi@[m - 1],
        decreases n - i,
    {
        let mut j = pi[i - 1];
        assert(is_border(xs@, i as int, j as int));
        while j > 0 && xs[j] != xs[i]
            invariant
                n == xs@.len(),
                1 <= i < n,
                pi@.len() == i,
                forall|t: int| 0 <= t < i ==> is_border(xs@, t + 1, #[trigger] pi@[t] as int),
                forall|m: int, c: int| 1 <= m <= i && #[trigger] is_border(xs@, m, c) ==> c <= pi@[m - 1],
                is_border(xs@, i as int, j as int),
                forall|c: int| #[trigger] is_border(xs@, i as int, c) && c > j ==> xs@[c] != xs@[i as int],
            decreases j,
        {
            proof {
                let nj = pi@[j - 1] as int;
                assert(is_border(xs@, j as int, nj));
                lemma_border_trans(xs@, i as int, j as int, nj);
                assert forall|c: int| #[trigger] is_border(xs@, i as int, c) && c > nj implies xs@[c] != xs@[i as int] by {
                    if c < j {
                        lemma_border_of_border(xs@, i as int, j as int, c);
                        assert(is_border(xs@, j as int, c));
                    }
                }
            }
            j = pi[j - 1];
        }
        let ghost old_pi = pi@;
        if xs[j] == xs[i] {
            proof {
                assert forall|u: int| 0 <= u < j + 1 implies #[trigger] xs@[u] == xs@[i + 1 - (j + 1) + u] by {
                    if u < j {
                        assert(xs@[u] == xs@[i - j + u]);
                    }
                }
            }
            pi.push(j + 1);
        } else {
            pi.push(0);
        }
        proof {
            assert forall|m: int, c: int| 1 <= m <= i + 1 && #[trigger] is_border(xs@, m, c) implies c <= pi@[m - 1] by {
                if m == i + 1 && c > 0 {
                    lemma_border_shrink(xs@, i as int, c);
                    if c - 1 > j {
                        assert(xs@[c - 1] != xs@[i as int]);
                    }
                } else if m <= i {
                    assert(pi@[m - 1] == old_pi[m - 1]);
                }
            }
        }
        i += 1;
    }
    let b = pi[n - 1];
    let p = n - b;
    proof {
        assert(is_border(xs@, n as int, b as int));
        assert forall|u: int| 0 <= u < xs@.len() - p implies #[trigger] xs@[u] == xs@[u + p] by {
            assert(xs@[u] == xs@[n - b + u]);
        }
        assert forall|q: int| 1 <= q < p implies !#[trigger] has_period(xs@, q) by {
            if has_period(xs@, q) {
                assert forall|u: int| 0 <= u < n - q implies #[trigger] xs@[u] == xs@[n - (n - q) + u] by {
                    assert(xs@[u] == xs@[u + q]);
                }
                assert(is_border(xs@, n as int, n - q));
            }
        }
        assert(smallest_period(xs@, p as int));
    }
    if n % p == 0 {
        (n, vstd::slice::slice_subrange(xs, 0, p))
    } else {
        (1, xs)
    }
}

proof fn lemma_mod_next(t: nat, len: nat)
    requires
        len > 0,
    ensures
        t % len < len,
        (t + 1) % len == if t % len + 1 == len { 0 } else { t % len + 1 },
{
    vstd::arithmetic::div_mod::lemma_mod_division_less_than_divisor(t as int, len as int);
    vstd::arithmetic::div_mod::lemma_add_mod_noop(t as int, 1, len as int);
    if len == 1 {
        assert((t + 1) % 1 == 0);
    } else {
        vstd::arithmetic::div_mod::lemma_small_mod(1, len);
        if t % len + 1 < len {
            vstd::arithmetic::div_mod::lemma_small_mod((t % len + 1) as nat, len);
        } else {
            vstd::arithmetic::div_mod::lemma_mod_self_0(len as int);
        }
    }
}

/// The sum of the first `t` elements of the endless repetition of `pat`.
pub open spec fn cycle_sum(pat: Seq<usize>, t: nat) -> nat
    decreases t,
{
    if t == 0 || pat.len() == 0 {
        0
    } else {
        cycle_sum(pat, (t - 1) as nat) + pat[(t - 1) % pat.len() as int] as nat
    }
}

proof fn lemma_cycle_sum_mono(pat: Seq<usize>, a: nat, b: nat)
    requires
        a <= b,
    ensures
        cycle_sum(pat, a) <= cycle_sum(pat, b),
    decreases b,
{
    if a < b {
        lemma_cycle_sum_mono(pat, a, (b - 1) as nat);
    }
}

/// For each of `n` windows of 256 consecutive elements of the endless repetition of `pat`,
/// the sum of the window.
pub fn one_up(pat: &[usize], n: usize) -> (r: Vec<usize>)
    requires
        n == 0 || pat@.len() > 0,
        cycle_sum(pat@, 256 * n as nat) <= usize::MAX,
    ensures
        r@.len() == n,
        forall|m: int| 0 <= m < n ==> #[trigger] r@[m] == cycle_sum(pat@, 256 * (m + 1) as nat) - cycle_sum(pat@, 256 * m as nat),
{
    let mut seq: Vec<usize> = Vec::with_capacity(n);
    let mut c: usize = 0;
    let mut state: usize = 0;
    let mut pos: usize = 0;
    let ghost mut t: nat = 0;
    let mut m: usize = 0;
    while m < n
        invariant
            m <= n,
            n == 0 || pat@.len() > 0,
            cycle_sum(pat@, 256 * n as nat) <= usize::MAX,
            t == 256 * m,
            pat@.len() > 0 ==> pos == t % (pat@.len() as nat),
            state == cycle_sum(pat@, t),
            c == state,
            seq@.len() == m,
            forall|q: int| 0 <= q < m ==> #[trigger] seq@[q] == cycle_sum(pat@, 256 * (q + 1) as nat) - cycle_sum(pat@, 256 * q as nat),
        decreases n - m,
    {
        let mut step: usize = 0;
        while step < 256
            invariant
                m < n,
                pat@.len() > 0,
                cycle_sum(pat@, 256 * n as nat) <= usize::MAX,
                step <= 256,
                t == 256 * m + step,
                pos == t % (pat@.len() as nat),
                state == cycle_sum(pat@, t),
                c == cycle_sum(pat@, 256 * m as nat),
                c <= state,
            decreases 256 - step,
        {
            proof {
                lemma_cycle_sum_mono(pat@, t + 1, 256 * n as nat);
                lemma_mod_next(t, pat@.len());
            }
            state = state + pat[pos];
            pos = if pos + 1 == pat.len() { 0 } else { pos + 1 };
            proof {
                t = t + 1;
            }
            step += 1;
            assert(c <= state);
        }
        seq.push(state - c);
        c = state;
        m += 1;
    }
    seq
}

/// The keys of `node`, of length `l`, whose numbers are at least the number of `bound`.
pub open spec fn keys_from<V>(node: DenseByteNode<V>, l: nat, bound: Seq<u8>) -> Set<Seq<u8>> {
    Set::new(|u: Seq<u8>| node.has_key(l, u) && be_value(u) >= be_value(bound))
}

/// The keys of `node`, of length `l`, whose numbers are below the number of `bound`.
pub open spec fn keys_below<V>(node: DenseByteNode<V>, l: nat, bound: Seq<u8>) -> Set<Seq<u8>> {
    Set::new(|u: Seq<u8>| node.has_key(l, u) && be_value(u) < be_value(bound))
}

/// The keys of length `l` of an optional node (none for `None`).
pub open spec fn opt_keys<V>(n: Option<DenseByteNode<V>>, l: nat) -> Set<Seq<u8>> {
    match n {
        Some(x) => x.keys(l),
        None => Set::empty(),
    }
}

/// The child of byte `b` of `node` (meaningful where there is one).
pub open spec fn child_of<V>(node: DenseByteNode<V>, b: u8) -> DenseByteNode<V> {
    node.slot(b).unwrap().rec.unwrap().node()
}

/// `r` is made of the slots of `node`, `l` levels deep, cut along the key `bound`: every slot
/// of `r` is a slot of `node`; at the last level its value is a clone of `node`'s value; above
/// it, the child of a byte other than `bound`'s first byte is `node`'s child itself (shared),
/// and the child of `bound`'s first byte is again made of `node`'s child, cut along the rest of
/// `bound`.
pub open spec fn copied_along<V: Clone>(r: DenseByteNode<V>, node: DenseByteNode<V>, l: nat, bound: Seq<u8>) -> bool
    decreases l,
{
    forall|b: u8| #[trigger] r.slot(b) is Some ==> {
        &&& node.slot(b) is Some
        &&& if l <= 1 {
            vstd::pervasive::cloned(node.slot(b).unwrap().value.unwrap(), r.slot(b).unwrap().value.unwrap())
        } else if b != bound[0] {
            child_of(r, b) == child_of(node, b)
        } else {
            copied_along(child_of(r, b), child_of(node, b), (l - 1) as nat, bound.drop_first())
        }
    }
}

/// `r` is made of the slots of `node`, `l` levels deep, cut along the two keys `lo` and `hi`:
/// as [`copied_along`], where the child of the common first byte of `lo` and `hi` is again cut
/// along both, and otherwise the child of `lo`'s first byte is cut along `lo` and that of `hi`'s
/// first byte along `hi`.
pub open spec fn copied_between<V: Clone>(r: DenseByteNode<V>, node: DenseByteNode<V>, l: nat, lo: Seq<u8>, hi: Seq<u8>) -> bool
    decreases l,
{
    forall|b: u8| #[trigger] r.slot(b) is Some ==> {
        &&& node.slot(b) is Some
        &&& if l <= 1 {
            vstd::pervasive::cloned(node.slot(b).unwrap().value.unwrap(), r.slot(b).unwrap().value.unwrap())
        } else if lo[0] == hi[0] && b == lo[0] {
            copied_between(child_of(r, b), child_of(node, b), (l - 1) as nat, lo.drop_first(), hi.drop_first())
        } else if lo[0] != hi[0] && b == lo[0] {
            copied_along(child_of(r, b), child_of(node, b), (l - 1) as nat, lo.drop_first())
        } else if lo[0] != hi[0] && b == hi[0] {
            copied_along(child_of(r, b), child_of(node, b), (l - 1) as nat, hi.drop_first())
        } else {
            child_of(r, b) == child_of(node, b)
        }
    }
}

/// Every value of `n` at depth `l` (the last level of a node of keys `l` bytes long) satisfies
/// `ok`.
pub open spec fn leaves_satisfy<V>(n: DenseByteNode<V>, l: nat, ok: spec_fn(V) -> bool) -> bool
    decreases l,
{
    forall|b: u8| #[trigger] n.slot(b) is Some ==> if l <= 1 {
        ok(n.slot(b).unwrap().value.unwrap())
    } else {
        leaves_satisfy(child_of(n, b), (l - 1) as nat, ok)
    }
}

/// The values that satisfy `ok`, and the clones of such values.
pub open spec fn or_clone_of<V: Clone>(ok: spec_fn(V) -> bool) -> spec_fn(V) -> bool {
    |w: V| ok(w) || exists|u: V| ok(u) && vstd::pervasive::cloned(u, w)
}

/// The clones of `value`.
pub open spec fn clone_of<V: Clone>(value: V) -> spec_fn(V) -> bool {
    |w: V| vstd::pervasive::cloned(value, w)
}

/// Leaves that satisfy `p` satisfy anything that `p` implies.
proof fn lemma_leaves_weaken<V>(n: DenseByteNode<V>, l: nat, p: spec_fn(V) -> bool, q: spec_fn(V) -> bool)
    requires
        leaves_satisfy(n, l, p),
        forall|w: V| #[trigger] p(w) ==> q(w),
    ensures
        leaves_satisfy(n, l, q),
    decreases l,
{
    assert forall|b: u8| #[trigger] n.slot(b) is Some implies if l <= 1 {
        q(n.slot(b).unwrap().value.unwrap())
    } else {
        leaves_satisfy(child_of(n, b), (l - 1) as nat, q)
    } by {
        if l > 1 {
            lemma_leaves_weaken(child_of(n, b), (l - 1) as nat, p, q);
        }
    }
}

/// Cutting a node along a key keeps its values or clones them.
proof fn lemma_copied_along_leaves<V: Clone>(r: DenseByteNode<V>, node: DenseByteNode<V>, l: nat, bound: Seq<u8>, p: spec_fn(V) -> bool)
    requires
        copied_along(r, node, l, bound),
        leaves_satisfy(node, l, p),
    ensures
        leaves_satisfy(r, l, or_clone_of(p)),
    decreases l,
{
    assert forall|b: u8| #[trigger] r.slot(b) is Some implies if l <= 1 {
        or_clone_of(p)(r.slot(b).unwrap().value.unwrap())
    } else {
        leaves_satisfy(child_of(r, b), (l - 1) as nat, or_clone_of(p))
    } by {
        assert(node.slot(b) is Some);
        if l <= 1 {
            let u = node.slot(b).unwrap().value.unwrap();
            assert(p(u));
        } else if b != bound[0] {
            lemma_leaves_weaken(child_of(node, b), (l - 1) as nat, p, or_clone_of(p));
        } else {
            lemma_copied_along_leaves(child_of(r, b), child_of(node, b), (l - 1) as nat, bound.drop_first(), p);
        }
    }
}

/// Cutting a node along two keys keeps its values or clones them.
proof fn lemma_copied_between_leaves<V: Clone>(r: DenseByteNode<V>, node: DenseByteNode<V>, l: nat, lo: Seq<u8>, hi: Seq<u8>, p: spec_fn(V) -> bool)
    requires
        copied_between(r, node, l, lo, hi),
        leaves_satisfy(node, l, p),
    ensures
        leaves_satisfy(r, l, or_clone_of(p)),
    decreases l,
{
    assert forall|b: u8| #[trigger] r.slot(b) is Some implies if l <= 1 {
        or_clone_of(p)(r.slot(b).unwrap().value.unwrap())
    } else {
        leaves_satisfy(child_of(r, b), (l - 1) as nat, or_clone_of(p))
    } by {
        assert(node.slot(b) is Some);
        if l <= 1 {
            let u = node.slot(b).unwrap().value.unwrap();
            assert(p(u));
        } else if lo[0] == hi[0] && b == lo[0] {
            lemma_copied_between_leaves(child_of(r, b), child_of(node, b), (l - 1) as nat, lo.drop_first(), hi.drop_first(), p);
        } else if lo[0] != hi[0] && b == lo[0] {
            lemma_copied_along_leaves(child_of(r, b), child_of(node, b), (l - 1) as nat, lo.drop_first(), p);
        } else if lo[0] != hi[0] && b == hi[0] {
            lemma_copied_along_leaves(child_of(r, b), child_of(node, b), (l - 1) as nat, hi.drop_first(), p);
        } else {
            lemma_leaves_weaken(child_of(node, b), (l - 1) as nat, p, or_clone_of(p));
        }
    }
}

/// Whether cutting `node` down to the keys from `list[pointer..]` on leaves it any slot.
pub open spec fn start_some<V>(node: DenseByteNode<V>, list: Seq<u8>, pointer: nat) -> bool
    decreases (if pointer < list.len() { list.len() - pointer } else { 0 }) as nat,
{
    if pointer >= list.len() {
        false
    } else if list.len() - pointer == 1 {
        exists|b: u8| b >= list[pointer as int] && #[trigger] node.slot(b) is Some
    } else {
        ||| exists|b: u8| b > list[pointer as int] && #[trigger] node.slot(b) is Some
        ||| {
            &&& node.slot(list[pointer as int]) is Some
            &&& node.slot(list[pointer as int]).unwrap().rec is Some
            &&& start_some(child_of(node, list[pointer as int]), list, pointer + 1)
        }
    }
}

/// A one-byte key is its byte.
proof fn lemma_be_value_single(u: Seq<u8>)
    requires
        u.len() == 1,
    ensures
        be_value(u) == u[0],
{
    lemma_be_value_first(u);
    assert(u.drop_first().len() == 0);
    assert(be_value(u.drop_first()) == 0);
    assert(pow256(0) == 1);
    assert(u[0] * pow256(0) == u[0]) by (nonlinear_arith)
        requires
            pow256(0) == 1,
    ;
}

/// Cuts `node`, whose keys are `start_list.len() - pointer` bytes long, down to the keys whose
/// numbers are at least that of `start_list[pointer..]`; `None` when no slot is left.
fn start_generator<V: Clone, const N: usize, R: UsefulNumber<N>>(
    start_list: &[u8],
    pointer: usize,
    node: &DenseByteNode<V>,
    divider: R,
) -> (r: Option<DenseByteNode<V>>)
    requires
        pointer <= start_list@.len(),
        pointer < start_list@.len() ==> node.shaped((start_list@.len() - pointer) as nat),
    ensures
        r is Some <==> start_some(*node, start_list@, pointer as nat),
        pointer < start_list@.len() ==> {
            let l = (start_list@.len() - pointer) as nat;
            &&& r matches Some(n) ==> n.shaped(l)
            &&& r matches Some(n) ==> copied_along(n, *node, l, start_list@.skip(pointer as int))
            &&& opt_keys(r, l) == keys_from(*node, l, start_list@.skip(pointer as int))
        },
    decreases start_list@.len() - pointer,
{
    let len = start_list.len();
    if pointer == len {
        return None;
    }
    let ghost l = (len - pointer) as nat;
    let ghost bound = start_list@.skip(pointer as int);
    let first = start_list[pointer];
    assert(bound[0] == first);
    let mut new_node: DenseByteNode<V> = DenseByteNode::new();
    if len - pointer == 1 {
        let mut k: usize = 0;
        while k < 256
            invariant
                k <= 256,
                new_node.wf(),
                node.shaped(1),
                forall|b: u8| #[trigger] new_node.slot(b) is Some <==> (b < k && b >= first && node.slot(b) is Some),
                forall|b: u8| #[trigger] new_node.slot(b) is Some ==> new_node.slot(b).unwrap().value is Some && new_node.slot(b).unwrap().rec is None,
                forall|b: u8| #[trigger] new_node.slot(b) is Some ==> vstd::pervasive::cloned(
                    node.slot(b).unwrap().value.unwrap(), new_node.slot(b).unwrap().value.unwrap()),
            decreases 256 - k,
        {
            let kb = k as u8;
            match node.get(kb) {
                Some(cf) => {
                    if kb >= first {
                        let v = cf.value.as_ref().unwrap().clone();
                        new_node.set_val(kb, v);
                    }
                },
                None => {},
            }
            k += 1;
        }
        proof {
            assert forall|u: Seq<u8>| new_node.has_key(1, u) <==> (node.has_key(1, u) && be_value(u) >= be_value(bound)) by {
                if u.len() == 1 {
                    lemma_be_value_single(u);
                    lemma_be_value_single(bound);
                }
            }
            assert(new_node.keys(1) =~= keys_from(*node, 1, bound));
        }
        if new_node.node_is_empty() {
            proof {
                assert forall|u: Seq<u8>| !new_node.has_key(1, u) by {
                    if u.len() == 1 {
                        assert(new_node.slot(u[0]) is None);
                    }
                }
                assert(keys_from(*node, 1, bound) =~= Set::empty());
                assert(!start_some(*node, start_list@, pointer as nat)) by {
                    if exists|b: u8| b >= first && #[trigger] node.slot(b) is Some {
                        let b = choose|b: u8| b >= first && #[trigger] node.slot(b) is Some;
                        assert(new_node.slot(b) is Some);
                    }
                }
            }
            None
        } else {
            proof {
                let b = choose|b: u8| !(#[trigger] new_node.slot(b) is None);
                assert(node.slot(b) is Some);
            }
            Some(new_node)
        }
    } else {
        let mut k: usize = 0;
        while k < 256
            invariant
                k <= 256,
                pointer + 1 < len,
                len == start_list@.len(),
                first == start_list@[pointer as int],
                new_node.wf(),
                node.shaped((len - pointer) as nat),
                forall|b: u8| #[trigger] new_node.slot(b) is Some <==> (b < k && node.slot(b) is Some && (b > first
                    || (b == first && start_some(child_of(*node, b), start_list@, (pointer + 1) as nat)))),
                forall|b: u8| #[trigger] new_node.slot(b) is Some ==> {
                    &&& new_node.slot(b).unwrap().value is None
                    &&& new_node.slot(b).unwrap().rec is Some
                    &&& b > first ==> child_of(new_node, b) == child_of(*node, b)
                    &&& b == first ==> child_of(new_node, b).shaped((len - pointer - 1) as nat)
                        && child_of(new_node, b).keys((len - pointer - 1) as nat)
                            == keys_from(child_of(*node, b), (len - pointer - 1) as nat, start_list@.skip(pointer + 1))
                        && copied_along(child_of(new_node, b), child_of(*node, b), (len - pointer - 1) as nat, start_list@.skip(pointer + 1))
                },
                first < k && node.slot(first) is Some && new_node.slot(first) is None
                    ==> keys_from(child_of(*node, first), (len - pointer - 1) as nat, start_list@.skip(pointer + 1)).is_empty(),
            decreases 256 - k,
        {
            let kb = k as u8;
            match node.get(kb) {
                Some(cf) => {
                    if kb > first {
                        let c = cf.rec.as_ref().unwrap().share();
                        new_node.set_child(kb, c);
                    } else if kb == first {
                        let sub = start_generator(start_list, pointer + 1, cf.rec.as_ref().unwrap().as_dense(), divider);
                        match sub {
                            Some(child) => {
                                new_node.set_child(kb, TrieNodeODRc::new(child));
                            },
                            None => {},
                        }
                    }
                },
                None => {},
            }
            k += 1;
        }
        proof {
            let lc = (l - 1) as nat;
            let bound1 = start_list@.skip(pointer + 1);
            assert(bound.drop_first() =~= bound1);
            assert forall|u: Seq<u8>| new_node.has_key(l, u) <==> (node.has_key(l, u) && be_value(u) >= be_value(bound)) by {
                if u.len() == l {
                    lemma_be_value_order(u, bound);
                    lemma_be_value_order(bound, u);
                    let b = u[0];
                    let ur = u.drop_first();
                    if b == first && node.slot(b) is Some {
                        if new_node.slot(b) is None {
                            assert(!keys_from(child_of(*node, first), lc, bound1).contains(ur));
                        } else {
                            assert(child_of(new_node, b).keys(lc).contains(ur) == keys_from(child_of(*node, first), lc, bound1).contains(ur));
                            assert(child_of(new_node, b).has_key(lc, ur) == child_of(new_node, b).keys(lc).contains(ur));
                        }
                    } else if b > first && node.slot(b) is Some {
                        assert(new_node.slot(b) is Some);
                        assert(child_of(new_node, b) == child_of(*node, b));
                    }
                }
            }
            assert(new_node.keys(l) =~= keys_from(*node, l, bound));
            assert forall|b: u8| #[trigger] new_node.slot(b) is Some implies
                child_of(new_node, b).shaped(lc) by {
                assert(node.slot(b) is Some);
            }
            assert(new_node.shaped(l));
        }
        if new_node.node_is_empty() {
            proof {
                if start_some(*node, start_list@, pointer as nat) {
                    if exists|b: u8| b > first && #[trigger] node.slot(b) is Some {
                        let b = choose|b: u8| b > first && #[trigger] node.slot(b) is Some;
                        assert(new_node.slot(b) is Some);
                    } else {
                        assert(new_node.slot(first) is Some);
                    }
                }
                assert(new_node.keys(l) =~= Set::empty()) by {
                    assert forall|u: Seq<u8>| !new_node.has_key(l, u) by {
                        if u.len() == l {
                            assert(new_node.slot(u[0]) is None);
                        }
                    }
                }
            }
            None
        } else {
            proof {
                let b = choose|b: u8| !(#[trigger] new_node.slot(b) is None);
                assert(node.slot(b) is Some);
                if b > first {
                    assert(start_some(*node, start_list@, pointer as nat));
                }
            }
            Some(new_node)
        }
    }
}

/// The number of `a` followed by `b` is that of `a` shifted by the length of `b`, plus that of `b`.
pub proof fn lemma_be_value_concat(a: Seq<u8>, b: Seq<u8>)
    ensures
        be_value(a + b) == be_value(a) * pow256(b.len()) + be_value(b),
    decreases b.len(),
{
    if b.len() == 0 {
        assert(a + b =~= a);
        assert(be_value(a) * pow256(0) == be_value(a)) by (nonlinear_arith)
            requires
                pow256(0) == 1,
        ;
    } else {
        let w = a + b;
        assert(w.drop_last() =~= a + b.drop_last());
        lemma_be_value_concat(a, b.drop_last());
        let p = pow256(b.drop_last().len());
        let x = be_value(a);
        let y = be_value(b.drop_last());
        assert(w.last() == b.last());
        assert(pow256(b.len()) == 256 * p);
        assert((x * p + y) * 256 + b.last() == x * (256 * p) + (y * 256 + b.last())) by (nonlinear_arith);
    }
}

/// The first number at or above `r` that is `offset` modulo `divider`.
pub open spec fn next_in_class(r: nat, divider: nat, offset: nat) -> nat {
    if offset < r % divider {
        (r + offset + divider - r % divider) as nat
    } else {
        (r + offset - r % divider) as nat
    }
}

/// Every number at or above `r` that is `offset` modulo `divider` is at or above
/// `next_in_class(r, divider, offset)`, which is itself such a number.
proof fn lemma_next_in_class(r: nat, divider: nat, offset: nat, x: nat)
    requires
        0 < divider,
        offset < divider,
    ensures
        next_in_class(r, divider, offset) >= r,
        next_in_class(r, divider, offset) % divider == offset,
        next_in_class(r, divider, offset) < r + divider,
        x >= r && x % divider == offset ==> x >= next_in_class(r, divider, offset),
{
    let d = divider as int;
    let q = r as int / d;
    let rem = r as int % d;
    vstd::arithmetic::div_mod::lemma_fundamental_div_mod(r as int, d);
    vstd::arithmetic::div_mod::lemma_fundamental_div_mod(x as int, d);
    let qx = x as int / d;
    let n = next_in_class(r, divider, offset) as int;
    if offset < rem {
        assert(n == (q + 1) * d + offset) by (nonlinear_arith)
            requires
                n == r + offset + d - rem,
                r == d * q + rem,
        ;
        vstd::arithmetic::div_mod::lemma_fundamental_div_mod_converse(n, d, q + 1, offset as int);
        if x >= r && x % divider == offset {
            assert(qx >= q + 1) by (nonlinear_arith)
                requires
                    x == d * qx + offset,
                    x >= r,
                    r == d * q + rem,
                    offset < rem,
                    d > 0,
            ;
            assert(x >= n) by (nonlinear_arith)
                requires
                    x == d * qx + offset,
                    n == (q + 1) * d + offset,
                    qx >= q + 1,
                    d > 0,
            ;
        }
    } else {
        assert(n == q * d + offset) by (nonlinear_arith)
            requires
                n == r + offset - rem,
                r == d * q + rem,
        ;
        vstd::arithmetic::div_mod::lemma_fundamental_div_mod_converse(n, d, q, offset as int);
        if x >= r && x % divider == offset {
            assert(qx >= q) by {
                if qx < q {
                    assert(d * qx <= d * (q - 1)) by (nonlinear_arith)
                        requires
                            qx <= q - 1,
                            d > 0,
                    ;
                    assert(d * (q - 1) == d * q - d) by (nonlinear_arith);
                }
            }
            assert(x >= n) by (nonlinear_arith)
                requires
                    x == d * qx + offset,
                    n == q * d + offset,
                    qx >= q,
                    d > 0,
            ;
        }
    }
}

/// The number of `list[..pointer + 1]` followed by zero bytes up to the length of `list`.
pub open spec fn prefix_floor(list: Seq<u8>, pointer: nat) -> nat {
    be_value(list.take(pointer as int + 1)) * pow256((list.len() - pointer - 1) as nat)
}

/// Whether cutting `node` down to the keys below `list[pointer..]` on leaves it any slot, where
/// the child of `list[pointer]` is searched only if a number of the class `offset` modulo
/// `divider` lies between `prefix_floor(list, pointer)` and the number of `list`.
pub open spec fn stop_some<V>(node: DenseByteNode<V>, list: Seq<u8>, pointer: nat, divider: nat, offset: nat) -> bool
    decreases (if pointer < list.len() { list.len() - pointer } else { 0 }) as nat,
{
    if pointer >= list.len() {
        false
    } else if list.len() - pointer == 1 {
        exists|b: u8| b < list[pointer as int] && #[trigger] node.slot(b) is Some
    } else {
        ||| exists|b: u8| b < list[pointer as int] && #[trigger] node.slot(b) is Some
        ||| {
            &&& node.slot(list[pointer as int]) is Some
            &&& node.slot(list[pointer as int]).unwrap().rec is Some
            &&& next_in_class(prefix_floor(list, pointer), divider, offset) < be_value(list)
            &&& stop_some(child_of(node, list[pointer as int]), list, pointer + 1, divider, offset)
        }
    }
}

/// Zero bytes have the number 0.
proof fn lemma_be_value_zeros(n: nat)
    ensures
        be_value(Seq::new(n, |i: int| 0u8)) == 0,
    decreases n,
{
    if n > 0 {
        let z = Seq::new(n, |i: int| 0u8);
        assert(z.drop_last() =~= Seq::new((n - 1) as nat, |i: int| 0u8));
        lemma_be_value_zeros((n - 1) as nat);
    }
}

/// Splitting `list` after position `j`.
proof fn lemma_split_number(list: Seq<u8>, j: nat)
    requires
        j < list.len(),
    ensures
        be_value(list) == be_value(list.take(j as int + 1)) * pow256((list.len() - j - 1) as nat)
            + be_value(list.skip(j as int + 1)),
        be_value(list.take(j as int + 1)) == be_value(list.take(j as int)) * 256 + list[j as int],
{
    assert(list =~= list.take(j as int + 1) + list.skip(j as int + 1));
    lemma_be_value_concat(list.take(j as int + 1), list.skip(j as int + 1));
    assert(list.take(j as int + 1).drop_last() =~= list.take(j as int));
}

/// Under the prefix number `p`, a key made of `first` and `rest` has the number that `rest` has
/// under the prefix `p * 256 + first`.
proof fn lemma_key_number(p: nat, first: u8, rest: Seq<u8>)
    ensures
        p * pow256(rest.len() + 1) + be_value(seq![first] + rest) == (p * 256 + first) * pow256(rest.len()) + be_value(rest),
{
    lemma_be_value_prepend(first, rest);
    let q = pow256(rest.len());
    assert(pow256(rest.len() + 1) == 256 * q);
    assert(p * (256 * q) + (first * q + be_value(rest)) == (p * 256 + first) * q + be_value(rest)) by (nonlinear_arith);
}

/// `first` followed by a key of the child of `first` is a key of `node`.
proof fn lemma_child_key<V>(node: DenseByteNode<V>, l: nat, first: u8, ur: Seq<u8>)
    requires
        l >= 2,
        node.slot(first) is Some,
        node.slot(first).unwrap().rec is Some,
        child_of(node, first).has_key((l - 1) as nat, ur),
    ensures
        node.has_key(l, seq![first] + ur),
{
    let u = seq![first] + ur;
    assert(u.drop_first() =~= ur);
    assert(u[0] == first);
}

/// The keys of `node` lie in the class `offset` modulo `divider` under the prefix `list[..pointer]`.
pub open spec fn keys_in_class<V>(node: DenseByteNode<V>, list: Seq<u8>, pointer: nat, divider: nat, offset: nat) -> bool {
    forall|u: Seq<u8>| #[trigger] node.has_key((list.len() - pointer) as nat, u) ==>
        (be_value(list.take(pointer as int)) * pow256((list.len() - pointer) as nat) + be_value(u)) % divider == offset
}

/// The child of `list[pointer]` keeps the class one byte further down; and when no number of
/// the class lies between `prefix_floor(list, pointer)` and the number of `list`, none of its
/// keys is below `list[pointer + 1..]`.
proof fn lemma_stop_child<V>(node: DenseByteNode<V>, list: Seq<u8>, pointer: nat, divider: nat, offset: nat)
    requires
        pointer + 1 < list.len(),
        0 < divider,
        offset < divider,
        node.slot(list[pointer as int]) is Some,
        node.slot(list[pointer as int]).unwrap().rec is Some,
        keys_in_class(node, list, pointer, divider, offset),
    ensures
        keys_in_class(child_of(node, list[pointer as int]), list, pointer + 1, divider, offset),
        next_in_class(prefix_floor(list, pointer), divider, offset) >= be_value(list) ==>
            keys_below(child_of(node, list[pointer as int]), (list.len() - pointer - 1) as nat, list.skip(pointer as int + 1))
                == Set::<Seq<u8>>::empty(),
{
    let first = list[pointer as int];
    let child = child_of(node, first);
    let l = (list.len() - pointer) as nat;
    let lc = (l - 1) as nat;
    let bound1 = list.skip(pointer as int + 1);
    let rv = prefix_floor(list, pointer);
    lemma_split_number(list, pointer);
    assert forall|ur: Seq<u8>| #[trigger] child.has_key(lc, ur) implies
        (be_value(list.take(pointer as int + 1)) * pow256(lc) + be_value(ur)) % divider == offset by {
        lemma_child_key(node, l, first, ur);
        lemma_key_number(be_value(list.take(pointer as int)), first, ur);
    }
    if next_in_class(rv, divider, offset) >= be_value(list) {
        assert forall|ur: Seq<u8>| !keys_below(child, lc, bound1).contains(ur) by {
            if child.has_key(lc, ur) {
                lemma_next_in_class(rv, divider, offset, (rv + be_value(ur)) as nat);
            }
        }
        assert(keys_below(child, lc, bound1) =~= Set::empty());
    }
}

/// The number of `stop_list[..pointer + 1]` followed by zero bytes: `prefix_floor`.
fn stop_floor<const N: usize, R: UsefulNumber<N>>(stop_list: &[u8], pointer: usize, witness: R) -> (rv: u128)
    requires
        stop_list@.len() == N,
        pointer + 1 < N,
    ensures
        rv == prefix_floor(stop_list@, pointer as nat),
        rv + 256 <= pow256(N as nat),
        rv + 256 <= u128::MAX + 1,
{
    proof {
        witness.lemma_width();
        lemma_pow256_mono(N as nat, 16);
        reveal_with_fuel(pow256, 17);
        assert(pow256(16) == u128::MAX + 1);
    }
    let len = stop_list.len();
    let mut r_buf: Vec<u8> = Vec::new();
    let mut i: usize = 0;
    while i < pointer + 1
        invariant
            i <= pointer + 1,
            pointer + 1 < len,
            len == stop_list@.len(),
            r_buf@ == stop_list@.take(i as int),
        decreases pointer + 1 - i,
    {
        r_buf.push(stop_list[i]);
        i += 1;
        assert(r_buf@ =~= stop_list@.take(i as int));
    }
    let mut z: usize = 0;
    while z < len - pointer - 1
        invariant
            z <= len - pointer - 1,
            pointer + 1 < len,
            len == stop_list@.len(),
            r_buf@ == stop_list@.take(pointer as int + 1) + Seq::new(z as nat, |i: int| 0u8),
        decreases len - pointer - 1 - z,
    {
        r_buf.push(0);
        z += 1;
        assert(r_buf@ =~= stop_list@.take(pointer as int + 1) + Seq::new(z as nat, |i: int| 0u8));
    }
    let ghost m = (len - pointer - 1) as nat;
    proof {
        lemma_be_value_concat(stop_list@.take(pointer as int + 1), Seq::new(m, |i: int| 0u8));
        lemma_be_value_zeros(m);
    }
    let r: R = bytes_number(&r_buf);
    let rv = r.to_u128();
    proof {
        assert(r_buf@.last() == 0);
        lemma_be_value_bound(r_buf@.drop_last());
        assert(rv == be_value(r_buf@.drop_last()) * 256);
        assert(pow256(N as nat) == 256 * pow256((N - 1) as nat));
        assert(rv + 256 <= pow256(N as nat)) by (nonlinear_arith)
            requires
                rv == be_value(r_buf@.drop_last()) * 256,
                be_value(r_buf@.drop_last()) < pow256((N - 1) as nat),
                pow256(N as nat) == 256 * pow256((N - 1) as nat),
        ;
    }
    rv
}

/// Cuts `node`, whose keys are `stop_list.len() - pointer` bytes long and lie in the class
/// `offset` modulo `divider` under the prefix `stop_list[..pointer]`, down to the keys whose
/// numbers are below that of `stop_list[pointer..]`; `None` when no slot is left (a kept child
/// may itself hold no key).
///
/// The divider is at most 256, the largest step of a range: the next number of the class after
/// the prefix is computed in `R`, and with a larger divider it can leave `R` (for `u16`, the
/// stop bytes `[255, 0]`, divider 300 and offset 299 give `65280 + 299`).
#[verifier::rlimit(60)]
fn stop_generator<V: Clone, const N: usize, R: UsefulNumber<N>>(
    stop_list: &[u8],
    pointer: usize,
    node: &DenseByteNode<V>,
    divider: R,
    offset: R,
) -> (r: Option<DenseByteNode<V>>)
    requires
        stop_list@.len() == N,
        pointer <= N,
        1 <= divider.val() <= 256,
        offset.val() < divider.val(),
        pointer < N ==> node.shaped((N - pointer) as nat),
        pointer < N ==> keys_in_class(*node, stop_list@, pointer as nat, divider.val(), offset.val()),
    ensures
        r is Some <==> stop_some(*node, stop_list@, pointer as nat, divider.val(), offset.val()),
        pointer < N ==> {
            let l = (N - pointer) as nat;
            &&& r matches Some(n) ==> n.shaped(l)
            &&& r matches Some(n) ==> copied_along(n, *node, l, stop_list@.skip(pointer as int))
            &&& opt_keys(r, l) == keys_below(*node, l, stop_list@.skip(pointer as int))
        },
    decreases N - pointer,
{
    proof {
        divider.lemma_width();
    }
    let len = stop_list.len();
    let stop: R = bytes_number(stop_list);
    if pointer == len {
        return None;
    }
    let ghost l = (len - pointer) as nat;
    let ghost bound = stop_list@.skip(pointer as int);
    let first = stop_list[pointer];
    assert(bound[0] == first);
    let mut new_node: DenseByteNode<V> = DenseByteNode::new();
    if len - pointer == 1 {
        let mut k: usize = 0;
        while k < 256
            invariant
                k <= 256,
                new_node.wf(),
                node.shaped(1),
                forall|b: u8| #[trigger] new_node.slot(b) is Some <==> (b < k && b < first && node.slot(b) is Some),
                forall|b: u8| #[trigger] new_node.slot(b) is Some ==> new_node.slot(b).unwrap().value is Some && new_node.slot(b).unwrap().rec is None,
                forall|b: u8| #[trigger] new_node.slot(b) is Some ==> vstd::pervasive::cloned(
                    node.slot(b).unwrap().value.unwrap(), new_node.slot(b).unwrap().value.unwrap()),
            decreases 256 - k,
        {
            let kb = k as u8;
            match node.get(kb) {
                Some(cf) => {
                    if kb < first {
                        let v = cf.value.as_ref().unwrap().clone();
                        new_node.set_val(kb, v);
                    }
                },
                None => {},
            }
            k += 1;
        }
        proof {
            assert forall|u: Seq<u8>| new_node.has_key(1, u) <==> (node.has_key(1, u) && be_value(u) < be_value(bound)) by {
                if u.len() == 1 {
                    lemma_be_value_single(u);
                    lemma_be_value_single(bound);
                }
            }
            assert(new_node.keys(1) =~= keys_below(*node, 1, bound));
        }
        if new_node.node_is_empty() {
            proof {
                assert forall|u: Seq<u8>| !new_node.has_key(1, u) by {
                    if u.len() == 1 {
                        assert(new_node.slot(u[0]) is None);
                    }
                }
                assert(keys_below(*node, 1, bound) =~= Set::empty());
                assert(!stop_some(*node, stop_list@, pointer as nat, divider.val(), offset.val())) by {
                    if exists|b: u8| b < first && #[trigger] node.slot(b) is Some {
                        let b = choose|b: u8| b < first && #[trigger] node.slot(b) is Some;
                        assert(new_node.slot(b) is Some);
                    }
                }
            }
            None
        } else {
            proof {
                let b = choose|b: u8| !(#[trigger] new_node.slot(b) is None);
                assert(node.slot(b) is Some);
            }
            Some(new_node)
        }
    } else {
        let rv = stop_floor(stop_list, pointer, divider);
        let d: u128 = divider.to_u128();
        let o: u128 = offset.to_u128();
        let stop_v: u128 = stop.to_u128();
        assert(rv + 256 <= u128::MAX + 1);
        let remainder = rv % d;
        assert(rv + o <= u128::MAX);
        proof {
            vstd::arithmetic::div_mod::lemma_mod_decreases(rv as nat, d as nat);
        }
        let next_step: u128 = rv + o - remainder + (if o < remainder { d } else { 0 });
        assert(next_step == next_in_class(rv as nat, d as nat, o as nat));
        let ghost lc = (l - 1) as nat;
        let ghost bound1 = stop_list@.skip(pointer + 1);
        proof {
            assert(bound.drop_first() =~= bound1);
        }
        let mut k: usize = 0;
        while k < 256
            invariant
                k <= 256,
                pointer + 1 < len,
                len == stop_list@.len(),
                len == N,
                first == stop_list@[pointer as int],
                1 <= divider.val() <= 256,
                offset.val() < divider.val(),
                d == divider.val(),
                o == offset.val(),
                rv == prefix_floor(stop_list@, pointer as nat),
                stop_v == be_value(stop_list@),
                next_step == next_in_class(rv as nat, d as nat, o as nat),
                bound1 == stop_list@.skip(pointer + 1),
                lc == len - pointer - 1,
                new_node.wf(),
                node.shaped((len - pointer) as nat),
                keys_in_class(*node, stop_list@, pointer as nat, divider.val(), offset.val()),
                forall|b: u8| #[trigger] new_node.slot(b) is Some <==> (b < k && node.slot(b) is Some && (b < first
                    || (b == first && next_step < stop_v && stop_some(child_of(*node, b), stop_list@, (pointer + 1) as nat, d as nat, o as nat)))),
                forall|b: u8| #[trigger] new_node.slot(b) is Some ==> {
                    &&& new_node.slot(b).unwrap().value is None
                    &&& new_node.slot(b).unwrap().rec is Some
                    &&& b < first ==> child_of(new_node, b) == child_of(*node, b)
                    &&& b == first ==> child_of(new_node, b).shaped(lc)
                        && child_of(new_node, b).keys(lc) == keys_below(child_of(*node, b), lc, bound1)
                        && copied_along(child_of(new_node, b), child_of(*node, b), lc, bound1)
                },
                first < k && node.slot(first) is Some && new_node.slot(first) is None
                    ==> keys_below(child_of(*node, first), lc, bound1).is_empty(),
            decreases 256 - k,
        {
            let kb = k as u8;
            match node.get(kb) {
                Some(cf) => {
                    if kb < first {
                        let c = cf.rec.as_ref().unwrap().share();
                        new_node.set_child(kb, c);
                    } else if kb == first {
                        proof {
                            lemma_stop_child(*node, stop_list@, pointer as nat, d as nat, o as nat);
                        }
                        if next_step < stop_v {
                            let sub = stop_generator(stop_list, pointer + 1, cf.rec.as_ref().unwrap().as_dense(), divider, offset);
                            match sub {
                                Some(child) => {
                                    new_node.set_child(kb, TrieNodeODRc::new(child));
                                },
                                None => {},
                            }
                        }
                    }
                },
                None => {},
            }
            k += 1;
        }
        proof {
            assert forall|u: Seq<u8>| new_node.has_key(l, u) <==> (node.has_key(l, u) && be_value(u) < be_value(bound)) by {
                if u.len() == l {
                    lemma_be_value_order(u, bound);
                    lemma_be_value_order(bound, u);
                    let b = u[0];
                    let ur = u.drop_first();
                    if b == first && node.slot(b) is Some {
                        if new_node.slot(b) is None {
                            assert(!keys_below(child_of(*node, first), lc, bound1).contains(ur));
                        } else {
                            assert(child_of(new_node, b).keys(lc).contains(ur) == keys_below(child_of(*node, first), lc, bound1).contains(ur));
                            assert(child_of(new_node, b).has_key(lc, ur) == child_of(new_node, b).keys(lc).contains(ur));
                        }
                    } else if b < first && node.slot(b) is Some {
                        assert(new_node.slot(b) is Some);
                        assert(child_of(new_node, b) == child_of(*node, b));
                    }
                }
            }
            assert(new_node.keys(l) =~= keys_below(*node, l, bound));
            assert forall|b: u8| #[trigger] new_node.slot(b) is Some implies
                child_of(new_node, b).shaped(lc) by {
                assert(node.slot(b) is Some);
            }
            assert(new_node.shaped(l));
        }
        if new_node.node_is_empty() {
            proof {
                if stop_some(*node, stop_list@, pointer as nat, divider.val(), offset.val()) {
                    if exists|b: u8| b < first && #[trigger] node.slot(b) is Some {
                        let b = choose|b: u8| b < first && #[trigger] node.slot(b) is Some;
                        assert(new_node.slot(b) is Some);
                    } else {
                        assert(new_node.slot(first) is Some);
                    }
                }
                assert(new_node.keys(l) =~= Set::empty()) by {
                    assert forall|u: Seq<u8>| !new_node.has_key(l, u) by {
                        if u.len() == l {
                            assert(new_node.slot(u[0]) is None);
                        }
                    }
                }
            }
            None
        } else {
            proof {
                let b = choose|b: u8| !(#[trigger] new_node.slot(b) is None);
                assert(node.slot(b) is Some);
                if b < first {
                    assert(stop_some(*node, stop_list@, pointer as nat, divider.val(), offset.val()));
                }
            }
            Some(new_node)
        }
    }
}

/// The keys of length `l` whose numbers, in block `m` of `256^l` numbers, are `offset` modulo
/// `divider`.
pub open spec fn block_keys(m: nat, l: nat, divider: nat, offset: nat) -> Set<Seq<u8>> {
    Set::new(|u: Seq<u8>| u.len() == l && (m * pow256(l) + be_value(u)) % divider == offset)
}

/// `pow256` is at least 256 past the empty length.
proof fn lemma_pow256_ge(n: nat)
    requires
        n >= 1,
    ensures
        pow256(n) >= 256,
{
    lemma_pow256_mono(1, n);
    reveal_with_fuel(pow256, 2);
}

/// Every block of at least 256 numbers holds a number of each class modulo `divider <= 256`.
proof fn lemma_block_nonempty(m: nat, l: nat, divider: nat, offset: nat)
    requires
        l >= 1,
        0 < divider <= 256,
        offset < divider,
    ensures
        exists|u: Seq<u8>| #[trigger] block_keys(m, l, divider, offset).contains(u),
{
    let x = m * pow256(l);
    let n = next_in_class(x, divider, offset);
    lemma_next_in_class(x, divider, offset, 0);
    lemma_pow256_ge(l);
    let v = (n - x) as nat;
    lemma_be_bytes_value(v, l);
    let u = be_bytes(v, l);
    assert(block_keys(m, l, divider, offset).contains(u));
}

/// A node that holds exactly block `m` holds, under each byte `b`, a child that holds exactly
/// block `256 * m + b` one level down.
proof fn lemma_block_child<V>(node: DenseByteNode<V>, m: nat, l: nat, divider: nat, offset: nat, b: u8)
    requires
        l >= 2,
        0 < divider <= 256,
        offset < divider,
        node.shaped(l),
        node.keys(l) == block_keys(m, l, divider, offset),
    ensures
        node.slot(b) is Some,
        node.slot(b).unwrap().rec is Some,
        child_of(node, b).shaped((l - 1) as nat),
        child_of(node, b).keys((l - 1) as nat) == block_keys((256 * m + b) as nat, (l - 1) as nat, divider, offset),
{
    let lc = (l - 1) as nat;
    lemma_block_nonempty((256 * m + b) as nat, lc, divider, offset);
    let w = choose|u: Seq<u8>| #[trigger] block_keys((256 * m + b) as nat, lc, divider, offset).contains(u);
    lemma_key_number(m, b, w);
    assert(block_keys(m, l, divider, offset).contains(seq![b] + w));
    assert(node.has_key(l, seq![b] + w));
    assert(node.slot(b) is Some);
    assert forall|ur: Seq<u8>| child_of(node, b).has_key(lc, ur)
        <==> block_keys((256 * m + b) as nat, lc, divider, offset).contains(ur) by {
        let u = seq![b] + ur;
        assert(u.drop_first() =~= ur);
        assert(u[0] == b);
        lemma_key_number(m, b, ur);
        assert(node.keys(l).contains(u) == node.has_key(l, u));
    }
    assert(child_of(node, b).keys(lc) =~= block_keys((256 * m + b) as nat, lc, divider, offset));
}

/// Wherever `lo` and `hi` still agree, above the last level, `node` has a child under their
/// common byte, and so on down to the byte where they part.
pub open spec fn has_common_path<V>(node: DenseByteNode<V>, l: nat, lo: Seq<u8>, hi: Seq<u8>) -> bool
    decreases l,
{
    l >= 2 && lo.len() > 0 && hi.len() > 0 && lo[0] == hi[0] ==> {
        &&& node.slot(lo[0]) is Some
        &&& node.slot(lo[0]).unwrap().rec is Some
        &&& has_common_path(child_of(node, lo[0]), (l - 1) as nat, lo.drop_first(), hi.drop_first())
    }
}

/// A node that holds a whole block of the class has a child under every byte, at every level.
proof fn lemma_block_common_path<V>(node: DenseByteNode<V>, m: nat, l: nat, divider: nat, offset: nat, lo: Seq<u8>, hi: Seq<u8>)
    requires
        l >= 1,
        0 < divider <= 256,
        offset < divider,
        node.shaped(l),
        node.keys(l) == block_keys(m, l, divider, offset),
    ensures
        has_common_path(node, l, lo, hi),
    decreases l,
{
    if l >= 2 && lo.len() > 0 && hi.len() > 0 && lo[0] == hi[0] {
        lemma_block_child(node, m, l, divider, offset, lo[0]);
        lemma_block_common_path(child_of(node, lo[0]), (256 * m + lo[0]) as nat, (l - 1) as nat, divider, offset,
            lo.drop_first(), hi.drop_first());
    }
}

/// The keys of `node`, of length `l`, whose numbers are at least that of `lo` and below that of `hi`.
pub open spec fn keys_between<V>(node: DenseByteNode<V>, l: nat, lo: Seq<u8>, hi: Seq<u8>) -> Set<Seq<u8>> {
    Set::new(|u: Seq<u8>| node.has_key(l, u) && be_value(lo) <= be_value(u) && be_value(u) < be_value(hi))
}

/// Cuts `help_node`, whose keys lie in the class `offset` modulo `step` under the common prefix
/// `split_start[..pointer] == split_stop[..pointer]` and which has a child wherever the two
/// bounds still agree, down to the keys whose numbers lie from that of `split_start[pointer..]`
/// up to, not including, that of `split_stop[pointer..]`.  The step is at most 256, as for
/// [`stop_generator`].
#[verifier::rlimit(40)]
fn double_sided_generator<V: Clone, const N: usize, R: UsefulNumber<N>>(
    pointer: usize,
    split_start: &[u8],
    split_stop: &[u8],
    help_node: &DenseByteNode<V>,
    step: R,
    offset: R,
) -> (r: DenseByteNode<V>)
    requires
        split_start@.len() == N,
        split_stop@.len() == N,
        pointer < N,
        split_start@.take(pointer as int) == split_stop@.take(pointer as int),
        be_value(split_start@.skip(pointer as int)) < be_value(split_stop@.skip(pointer as int)),
        1 <= step.val() <= 256,
        offset.val() < step.val(),
        help_node.shaped((N - pointer) as nat),
        keys_in_class(*help_node, split_stop@, pointer as nat, step.val(), offset.val()),
        has_common_path(*help_node, (N - pointer) as nat, split_start@.skip(pointer as int), split_stop@.skip(pointer as int)),
    ensures
        r.shaped((N - pointer) as nat),
        r.keys((N - pointer) as nat) == keys_between(*help_node, (N - pointer) as nat,
            split_start@.skip(pointer as int), split_stop@.skip(pointer as int)),
        copied_between(r, *help_node, (N - pointer) as nat, split_start@.skip(pointer as int), split_stop@.skip(pointer as int)),
    decreases N - pointer,
{
    let ghost l = (N - pointer) as nat;
    let ghost lo = split_start@.skip(pointer as int);
    let ghost hi = split_stop@.skip(pointer as int);
    let ghost m = be_value(split_stop@.take(pointer as int));
    let ghost s = step.val();
    let ghost o = offset.val();
    let len = split_start.len();
    let sp = split_start[pointer];
    let tp = split_stop[pointer];
    assert(lo[0] == sp && hi[0] == tp);
    proof {
        lemma_be_value_order(lo, hi);
        lemma_be_value_order(hi, lo);
    }
    let mut new_node: DenseByteNode<V> = DenseByteNode::new();
    if sp == tp {
        proof {
            if l == 1 {
                lemma_be_value_single(lo);
                lemma_be_value_single(hi);
            }
            assert(l >= 2);
            assert(help_node.slot(sp) is Some && help_node.slot(sp).unwrap().rec is Some);
            lemma_stop_child(*help_node, split_stop@, pointer as nat, s, o);
            lemma_split_number(split_stop@, pointer as nat);
            assert(split_start@.take(pointer as int + 1) =~= split_start@.take(pointer as int).push(sp));
            assert(split_stop@.take(pointer as int + 1) =~= split_stop@.take(pointer as int).push(tp));
            assert(lo.drop_first() =~= split_start@.skip(pointer as int + 1));
            assert(hi.drop_first() =~= split_stop@.skip(pointer as int + 1));
        }
        let n = help_node.get(sp).unwrap().rec.as_ref().unwrap().as_dense();
        let sub = double_sided_generator(pointer + 1, split_start, split_stop, n, step, offset);
        let ghost subk = sub.keys((l - 1) as nat);
        new_node.set_child(sp, TrieNodeODRc::new(sub));
        proof {
            let lc = (l - 1) as nat;
            assert forall|u: Seq<u8>| new_node.has_key(l, u) <==> keys_between(*help_node, l, lo, hi).contains(u) by {
                if u.len() == l {
                    lemma_be_value_order(u, lo);
                    lemma_be_value_order(lo, u);
                    lemma_be_value_order(u, hi);
                    lemma_be_value_order(hi, u);
                    if u[0] == sp {
                        assert(child_of(new_node, sp).has_key(lc, u.drop_first()) == subk.contains(u.drop_first()));
                    }
                }
            }
            assert(new_node.keys(l) =~= keys_between(*help_node, l, lo, hi));
        }
        new_node
    } else if pointer == len - 1 {
        let mut k: usize = 0;
        while k < 256
            invariant
                k <= 256,
                new_node.wf(),
                help_node.shaped(1),
                forall|b: u8| #[trigger] new_node.slot(b) is Some <==> (b < k && sp <= b && b < tp && help_node.slot(b) is Some),
                forall|b: u8| #[trigger] new_node.slot(b) is Some ==> new_node.slot(b).unwrap().value is Some && new_node.slot(b).unwrap().rec is None,
                forall|b: u8| #[trigger] new_node.slot(b) is Some ==> vstd::pervasive::cloned(
                    help_node.slot(b).unwrap().value.unwrap(), new_node.slot(b).unwrap().value.unwrap()),
            decreases 256 - k,
        {
            let kb = k as u8;
            match help_node.get(kb) {
                Some(cf) => {
                    if sp <= kb && kb < tp {
                        let v = cf.value.as_ref().unwrap().clone();
                        new_node.set_val(kb, v);
                    }
                },
                None => {},
            }
            k += 1;
        }
        proof {
            assert forall|u: Seq<u8>| new_node.has_key(1, u) <==> keys_between(*help_node, 1, lo, hi).contains(u) by {
                if u.len() == 1 {
                    lemma_be_value_single(u);
                    lemma_be_value_single(lo);
                    lemma_be_value_single(hi);
                }
            }
            assert(new_node.keys(1) =~= keys_between(*help_node, 1, lo, hi));
        }
        new_node
    } else {
        let ghost lc = (l - 1) as nat;
        let ghost lo1 = split_start@.skip(pointer as int + 1);
        let ghost hi1 = split_stop@.skip(pointer as int + 1);
        proof {
            assert(lo.drop_first() =~= lo1);
            assert(hi.drop_first() =~= hi1);
            lemma_split_number(split_stop@, pointer as nat);
            if help_node.slot(tp) is Some {
                lemma_stop_child(*help_node, split_stop@, pointer as nat, s, o);
            }
        }
        match help_node.get(sp) {
            Some(n_start) => {
                match start_generator(split_start, pointer + 1, n_start.rec.as_ref().unwrap().as_dense(), step) {
                    Some(start_dict) => {
                        new_node.set_child(sp, TrieNodeODRc::new(start_dict));
                    },
                    None => {},
                }
            },
            None => {},
        }
        match help_node.get(tp) {
            Some(n_stop) => {
                match stop_generator(split_stop, pointer + 1, n_stop.rec.as_ref().unwrap().as_dense(), step, offset) {
                    Some(stop_dict) => {
                        new_node.set_child(tp, TrieNodeODRc::new(stop_dict));
                    },
                    None => {},
                }
            },
            None => {},
        }
        let ghost after_ends = new_node;
        let mut k: usize = 0;
        while k < 256
            invariant
                k <= 256,
                sp < tp,
                l >= 2,
                lc == l - 1,
                new_node.wf(),
                help_node.shaped(l),
                forall|b: u8| #[trigger] help_node.slot(b) is Some ==> help_node.slot(b).unwrap().rec is Some,
                forall|b: u8| (b == sp || b == tp) ==> #[trigger] new_node.slot(b) == after_ends.slot(b),
                forall|b: u8| sp < b < tp ==> (#[trigger] new_node.slot(b) is Some <==> (b < k && help_node.slot(b) is Some)),
                forall|b: u8| sp < b < tp && #[trigger] new_node.slot(b) is Some ==> new_node.slot(b).unwrap().value is None
                    && new_node.slot(b).unwrap().rec is Some && child_of(new_node, b) == child_of(*help_node, b),
                forall|b: u8| (b < sp || b > tp) ==> #[trigger] new_node.slot(b) is None,
            decreases 256 - k,
        {
            let kb = k as u8;
            match help_node.get(kb) {
                Some(cf) => {
                    if sp < kb && kb < tp {
                        let c = cf.rec.as_ref().unwrap().share();
                        new_node.set_child(kb, c);
                    }
                },
                None => {},
            }
            k += 1;
        }
        proof {
            assert forall|u: Seq<u8>| new_node.has_key(l, u) <==> keys_between(*help_node, l, lo, hi).contains(u) by {
                if u.len() == l {
                    lemma_be_value_order(u, lo);
                    lemma_be_value_order(lo, u);
                    lemma_be_value_order(u, hi);
                    lemma_be_value_order(hi, u);
                    let b = u[0];
                    let ur = u.drop_first();
                    if b == sp {
                        if new_node.slot(b) is Some {
                            assert(child_of(new_node, b).has_key(lc, ur) == child_of(new_node, b).keys(lc).contains(ur));
                            assert(keys_from(child_of(*help_node, sp), lc, lo1).contains(ur)
                                == child_of(new_node, b).keys(lc).contains(ur));
                        } else if help_node.slot(sp) is Some {
                            assert(!keys_from(child_of(*help_node, sp), lc, lo1).contains(ur));
                        }
                    } else if b == tp {
                        if new_node.slot(b) is Some {
                            assert(child_of(new_node, b).has_key(lc, ur) == child_of(new_node, b).keys(lc).contains(ur));
                            assert(keys_below(child_of(*help_node, tp), lc, hi1).contains(ur)
                                == child_of(new_node, b).keys(lc).contains(ur));
                        } else if help_node.slot(tp) is Some {
                            assert(!keys_below(child_of(*help_node, tp), lc, hi1).contains(ur));
                        }
                    } else if sp < b && b < tp {
                        if help_node.slot(b) is Some {
                            assert(new_node.slot(b) is Some);
                        }
                    }
                }
            }
            assert(new_node.keys(l) =~= keys_between(*help_node, l, lo, hi));
            assert forall|b: u8| #[trigger] new_node.slot(b) is Some implies {
                &&& new_node.slot(b).unwrap().value is None
                &&& new_node.slot(b).unwrap().rec is Some
                &&& child_of(new_node, b).shaped(lc)
            } by {
                if sp < b && b < tp {
                    assert(help_node.slot(b) is Some);
                }
            }
            assert(new_node.shaped(l));
        }
        new_node
    }
}

/// The `k`-th term from `i` by `s` is below `t` exactly when `k` is below the number of
/// terms below `t`.
proof fn lemma_ap_count_index(i: nat, s: nat, t: nat, k: nat)
    requires
        s > 0,
    ensures
        i + k * s < t <==> k < ap_count(i, s, t),
    decreases (if i < t { t - i } else { 0 }) as nat,
{
    if i >= t {
        assert(k * s >= 0) by (nonlinear_arith);
    } else if k > 0 {
        lemma_ap_count_index(i + s, s, t, (k - 1) as nat);
        assert(i + k * s == (i + s) + (k - 1) * s) by (nonlinear_arith);
    }
}

/// The progression from `o < s` by `s` has exactly 256 terms below `256 * s`.
proof fn lemma_ap_count_total(o: nat, s: nat)
    requires
        0 < s,
        o < s,
    ensures
        ap_count(o, s, 256 * s) == 256,
{
    lemma_ap_count_index(o, s, 256 * s, 255);
    lemma_ap_count_index(o, s, 256 * s, 256);
    assert(o + 255 * s < 256 * s);
}

/// For `s <= 256` every block of 256 numbers holds a term of the progression from `o < s`.
proof fn lemma_block_has_term(o: nat, s: nat, j: nat)
    requires
        0 < s <= 256,
        o < s,
    ensures
        ap_count(o, s, 256 * j) < ap_count(o, s, 256 * (j + 1)),
{
    let x = next_in_class(256 * j, s, o);
    lemma_next_in_class(256 * j, s, o, 0);
    vstd::arithmetic::div_mod::lemma_fundamental_div_mod(x as int, s as int);
    let q = x / s;
    assert(o + q * s == x) by (nonlinear_arith)
        requires
            x == s * q + o,
    ;
    lemma_ap_count_index(o, s, 256 * (j + 1), q);
    lemma_ap_count_index(o, s, 256 * j, q);
}

/// The number of terms of the progression from `o` by `s` in block `j` of 256 numbers.
pub open spec fn block_count(o: nat, s: nat, j: nat) -> nat {
    (ap_count(o, s, 256 * (j + 1)) - ap_count(o, s, 256 * j)) as nat
}

/// For `s <= 256` the run lengths that `repetition` reports are the term counts of the `s`
/// blocks, continued from a run of `count` terms in block `last` with the `k`-th term next.
proof fn lemma_block_runs(o: nat, s: nat, k: nat, last: nat, count: nat)
    requires
        0 < s <= 256,
        o < s,
        last < s,
        ap_count(o, s, 256 * last) <= k <= ap_count(o, s, 256 * (last + 1)),
    ensures
        block_runs(o + k * s, s, 256 * s, last, count)
            == seq![(count + ap_count(o, s, 256 * (last + 1)) - k) as usize]
                + Seq::new((s - 1 - last) as nat, |t: int| block_count(o, s, (last + 1 + t) as nat) as usize),
    decreases 256 - k,
{
    let i = o + k * s;
    let lim = 256 * s;
    let a1 = ap_count(o, s, 256 * (last + 1));
    lemma_ap_count_index(o, s, 256 * (last + 1), k);
    lemma_ap_count_index(o, s, 256 * last, k);
    lemma_ap_count_total(o, s);
    if i >= lim {
        assert(k >= 256) by (nonlinear_arith)
            requires
                o + k * s >= 256 * s,
                o < s,
        ;
        lemma_ap_count_index(o, s, 256 * (last + 1), 255);
        if last + 1 < s {
            lemma_block_has_term(o, s, last + 1);
            lemma_ap_count_mono(o, s, 256 * (last + 2), 256 * s);
        }
        assert(Seq::new((s - 1 - last) as nat, |t: int| block_count(o, s, (last + 1 + t) as nat) as usize) =~= Seq::<usize>::empty());
        assert(seq![(count + a1 - k) as usize] + Seq::<usize>::empty() =~= seq![count as usize]);
    } else {
        assert(i + s == o + (k + 1) * s) by (nonlinear_arith)
            requires
                i == o + k * s,
        ;
        assert(k < 256) by (nonlinear_arith)
            requires
                o + k * s < 256 * s,
        ;
        if i / 256 == last {
            assert(i < 256 * (last + 1));
            lemma_block_runs(o, s, k + 1, last, count + 1);
        } else {
            assert(i >= 256 * last);
            assert(i >= 256 * (last + 1));
            assert(k == a1);
            assert(k >= 1) by {
                lemma_block_has_term(o, s, 0);
                lemma_ap_count_mono(o, s, 256, 256 * (last + 1));
            }
            lemma_ap_count_index(o, s, 256 * (last + 1), (k - 1) as nat);
            assert(o + (k - 1) * s < 256 * (last + 1));
            assert(i == o + (k - 1) * s + s) by (nonlinear_arith)
                requires
                    i == o + k * s,
                    k >= 1,
            ;
            assert(i < 256 * (last + 2));
            assert(i / 256 == last + 1);
            assert(last + 1 < s) by {
                assert(i < 256 * s);
            }
            lemma_ap_count_index(o, s, 256 * (last + 2), k);
            lemma_block_runs(o, s, k + 1, last + 1, 1);
            let tail = Seq::new((s - 2 - last) as nat, |t: int| block_count(o, s, (last + 2 + t) as nat) as usize);
            let whole = Seq::new((s - 1 - last) as nat, |t: int| block_count(o, s, (last + 1 + t) as nat) as usize);
            assert(whole =~= seq![block_count(o, s, last + 1) as usize] + tail);
            assert(block_runs(i, s, lim, last, count) == seq![count as usize] + block_runs(i + s, s, lim, last + 1, 1));
            assert(seq![(count + a1 - k) as usize] + whole =~= seq![count as usize] + (seq![block_count(o, s, last + 1) as usize] + tail));
        }
    }
}

/// More room holds at least as many terms.
proof fn lemma_ap_count_mono(i: nat, s: nat, t1: nat, t2: nat)
    requires
        s > 0,
        t1 <= t2,
    ensures
        ap_count(i, s, t1) <= ap_count(i, s, t2),
    decreases (if i < t2 { t2 - i } else { 0 }) as nat,
{
    if i < t1 {
        lemma_ap_count_mono(i + s, s, t1, t2);
    }
}

/// The term counts of the blocks of the progression from `o < s`, for `s <= 256`.
pub open spec fn block_counts(o: nat, s: nat) -> Seq<usize> {
    Seq::new(s, |j: int| block_count(o, s, j as nat) as usize)
}

/// Counts of terms below block boundaries: the counts of `p` consecutive blocks from `j` add up
/// to the count of the first `p` blocks, when the block counts repeat with period `p`.
proof fn lemma_period_shift(o: nat, s: nat, p: nat, j: nat)
    requires
        0 < s <= 256,
        o < s,
        1 <= p,
        j + p <= s,
        has_period(block_counts(o, s), p as int),
    ensures
        ap_count(o, s, 256 * (j + p)) == ap_count(o, s, 256 * j) + ap_count(o, s, 256 * p),
    decreases j,
{
    if j > 0 {
        lemma_period_shift(o, s, p, (j - 1) as nat);
        let xs = block_counts(o, s);
        assert(xs[j - 1] == xs[j - 1 + p]);
        lemma_ap_count_total(o, s);
        lemma_ap_count_mono(o, s, 256 * (j + p), 256 * s);
        lemma_ap_count_mono(o, s, (256 * (j - 1 + p)) as nat, 256 * (j + p));
        lemma_ap_count_mono(o, s, 256 * j, 256 * s);
        lemma_ap_count_mono(o, s, (256 * (j - 1)) as nat, 256 * j);
        assert(block_count(o, s, (j - 1) as nat) == block_count(o, s, (j - 1 + p) as nat));
    } else {
        assert(ap_count(o, s, 0) == 0);
    }
}

/// With the block counts repeating with period `p`, a divisor of `s`, `256 * p` is a multiple
/// of `s`: blocks `p` apart hold the same pattern of terms.
proof fn lemma_period_divides(o: nat, s: nat, p: nat)
    requires
        0 < s <= 256,
        o < s,
        1 <= p <= s,
        s % p == 0,
        has_period(block_counts(o, s), p as int),
    ensures
        (256 * p) % s == 0,
{
    let a = ap_count(o, s, 256 * p);
    let q = s / p;
    vstd::arithmetic::div_mod::lemma_fundamental_div_mod(s as int, p as int);
    assert(q * p == s) by (nonlinear_arith)
        requires
            s == p * q + 0,
    ;
    lemma_period_multiples(o, s, p, q);
    lemma_ap_count_total(o, s);
    assert(256 * p == s * a) by (nonlinear_arith)
        requires
            q * a == 256,
            q * p == s,
    ;
    vstd::arithmetic::div_mod::lemma_mod_multiples_basic(a as int, s as int);
    assert(((a * s) as int) % (s as int) == 0);
    assert(a * s == s * a) by (nonlinear_arith);
}

/// `q` periods of `p` blocks hold `q` times the terms of the first `p` blocks.
proof fn lemma_period_multiples(o: nat, s: nat, p: nat, q: nat)
    requires
        0 < s <= 256,
        o < s,
        1 <= p,
        q * p <= s,
        has_period(block_counts(o, s), p as int),
    ensures
        ap_count(o, s, 256 * (q * p)) == q * ap_count(o, s, 256 * p),
    decreases q,
{
    if q == 0 {
        assert(q * p == 0) by (nonlinear_arith)
            requires
                q == 0,
        ;
        assert(ap_count(o, s, 0) == 0);
    } else {
        assert((q - 1) * p + p == q * p) by (nonlinear_arith);
        assert((q - 1) * p <= q * p) by (nonlinear_arith);
        lemma_period_multiples(o, s, p, (q - 1) as nat);
        let j = ((q - 1) * p) as nat;
        lemma_period_shift(o, s, p, j);
        assert(j + p == q * p);
        assert((q - 1) * ap_count(o, s, 256 * p) + ap_count(o, s, 256 * p) == q * ap_count(o, s, 256 * p)) by (nonlinear_arith);
    }
}

/// Blocks `per` apart hold the same keys when `per * 256^l` is a multiple of `divider`.
proof fn lemma_block_period(m: nat, per: nat, l: nat, divider: nat, offset: nat)
    requires
        per > 0,
        divider > 0,
        (per * pow256(l)) % divider == 0,
    ensures
        block_keys(m, l, divider, offset) == block_keys(m % per, l, divider, offset),
{
    let p = pow256(l);
    let d = divider as int;
    vstd::arithmetic::div_mod::lemma_fundamental_div_mod(m as int, per as int);
    vstd::arithmetic::div_mod::lemma_fundamental_div_mod((per * p) as int, d);
    let c = (per * p) as int / d;
    let a = m as int / per as int;
    let r = m as int % per as int;
    assert forall|u: Seq<u8>| block_keys(m, l, divider, offset).contains(u)
        <==> block_keys(m % per, l, divider, offset).contains(u) by {
        if u.len() == l {
            let v = be_value(u) as int;
            assert(m * p + v == d * (a * c) + (r * p + v)) by (nonlinear_arith)
                requires
                    m == per * a + r,
                    per * p == d * c + 0,
            ;
            vstd::arithmetic::div_mod::lemma_mod_multiples_vanish(a * c, r * p + v, d);
        }
    }
    assert(block_keys(m, l, divider, offset) =~= block_keys(m % per, l, divider, offset));
}

/// A node whose 256 slots hold children that hold the blocks `256 * m + b` one level down holds
/// block `m`.
proof fn lemma_level_keys<V>(node: DenseByteNode<V>, m: nat, l: nat, divider: nat, offset: nat)
    requires
        l >= 1,
        node.wf(),
        forall|b: u8| #[trigger] node.slot(b) is Some,
        forall|b: u8| #[trigger] node.slot(b) is Some ==> {
            &&& node.slot(b).unwrap().value is None
            &&& node.slot(b).unwrap().rec is Some
            &&& child_of(node, b).shaped(l)
            &&& child_of(node, b).keys(l) == block_keys((256 * m + b) as nat, l, divider, offset)
        },
    ensures
        node.shaped(l + 1),
        node.keys(l + 1) == block_keys(m, l + 1, divider, offset),
{
    assert forall|u: Seq<u8>| #[trigger] node.has_key(l + 1, u) <==> block_keys(m, l + 1, divider, offset).contains(u) by {
        if u.len() == l + 1 {
            let b = u[0];
            let ur = u.drop_first();
            assert(u =~= seq![b] + ur);
            assert(node.slot(b) is Some);
            lemma_key_number(m, b, ur);
            assert(child_of(node, b).keys(l).contains(ur) == child_of(node, b).has_key(l, ur));
        }
    }
    assert(node.keys(l + 1) =~= block_keys(m, l + 1, divider, offset));
}

/// Numbers of one class modulo `s` that lie within `s` of each other are equal.
proof fn lemma_same_class_close(x: nat, y: nat, s: nat)
    requires
        0 < s,
        x % s == y % s,
        y <= x < y + s,
    ensures
        x == y,
{
    vstd::arithmetic::div_mod::lemma_fundamental_div_mod(x as int, s as int);
    vstd::arithmetic::div_mod::lemma_fundamental_div_mod(y as int, s as int);
    let qx = x as int / s as int;
    let qy = y as int / s as int;
    let r = x as int % s as int;
    if qx > qy {
        assert(x >= y + s) by (nonlinear_arith)
            requires
                x == s * qx + r,
                y == s * qy + r,
                qx >= qy + 1,
                s > 0,
        ;
    } else if qx < qy {
        assert(y >= x + s) by (nonlinear_arith)
            requires
                x == s * qx + r,
                y == s * qy + r,
                qy >= qx + 1,
                s > 0,
        ;
    }
}

/// The `n`-byte keys whose numbers lie from `start` up to, not including, `stop`, in the class
/// of `start` modulo `step`.
pub open spec fn range_keys(start: nat, stop: nat, step: nat, n: nat) -> Set<Seq<u8>> {
    Set::new(|u: Seq<u8>| u.len() == n && start <= be_value(u) < stop && be_value(u) % step == start % step)
}

/// The one-byte range: values at `start`, `start + step`, ... below `stop`.
fn one_byte_range<V: Clone>(start: u128, stop: u128, step: u128, value: V) -> (r: DenseByteNode<V>)
    requires
        start < stop <= 256,
        1 <= step <= 256,
    ensures
        r.shaped(1),
        r.keys(1) == range_keys(start as nat, stop as nat, step as nat, 1),
        leaves_satisfy(r, 1, clone_of(value)),
{
    let mut node: DenseByteNode<V> = DenseByteNode::new();
    let stop16 = stop as u16;
    let step16 = step as u16;
    let mut n: u16 = start as u16;
    while n < stop16
        invariant
            node.wf(),
            stop16 == stop,
            step16 == step,
            start < stop <= 256,
            1 <= step <= 256,
            start <= n < stop + step,
            (n as nat) % (step as nat) == (start as nat) % (step as nat),
            forall|b: u8| #[trigger] node.slot(b) is Some <==> (start <= b < n && (b as nat) % (step as nat) == (start as nat) % (step as nat)),
            forall|b: u8| #[trigger] node.slot(b) is Some ==> node.slot(b).unwrap().value is Some && node.slot(b).unwrap().rec is None,
            forall|b: u8| #[trigger] node.slot(b) is Some ==> vstd::pervasive::cloned(value, node.slot(b).unwrap().value.unwrap()),
        decreases stop16 + step16 - n,
    {
        let ghost old_node = node;
        node.set_val(n as u8, value.clone());
        proof {
            assert forall|b: u8| #[trigger] node.slot(b) is Some <==> (start <= b < n + step && (b as nat) % (step as nat) == (start as nat) % (step as nat)) by {
                if b > n && b < n + step && (b as nat) % (step as nat) == (start as nat) % (step as nat) {
                    lemma_same_class_close(b as nat, n as nat, step as nat);
                }
            }
            vstd::arithmetic::div_mod::lemma_mod_add_multiples_vanish(n as int, step as int);
            assert(((n + step) as nat) % (step as nat) == (n as nat) % (step as nat));
        }
        n = n + step16;
    }
    proof {
        assert forall|u: Seq<u8>| node.has_key(1, u) <==> range_keys(start as nat, stop as nat, step as nat, 1).contains(u) by {
            if u.len() == 1 {
                lemma_be_value_single(u);
                let b = u[0];
                if stop <= b && b < n && (b as nat) % (step as nat) == (start as nat) % (step as nat) {
                    assert(n - step < b);
                    lemma_same_class_close(n as nat, b as nat, step as nat);
                }
            }
        }
        assert(node.keys(1) =~= range_keys(start as nat, stop as nat, step as nat, 1));
    }
    node
}

/// The base level: node `j`, for each `j < section.len()`, takes its `section[j]` values in
/// order from the low bytes `pat` of the terms of the progression from `o` by `s`, whose block
/// counts `section` starts.
fn build_base_level<V: Clone>(pat: &Vec<u8>, section: &[usize], value: &V, Ghost(o): Ghost<nat>, Ghost(s): Ghost<nat>) -> (r: Vec<TrieNodeODRc<V>>)
    requires
        0 < s <= 256,
        o < s,
        pat@.len() == 256,
        forall|q: int| 0 <= q < 256 ==> #[trigger] pat@[q] == (ap(o, s, q as nat) % 256) as u8,
        section@.len() <= s,
        section@ == block_counts(o, s).take(section@.len() as int),
    ensures
        r@.len() == section@.len(),
        forall|j: int| 0 <= j < r@.len() ==> (#[trigger] r@[j]).node().shaped(1)
            && r@[j].node().keys(1) == block_keys(j as nat, 1, s, o),
        forall|j: int| 0 <= j < r@.len() ==> leaves_satisfy((#[trigger] r@[j]).node(), 1, clone_of(*value)),
{
    let plen = pat.len();
    let mut lv1: Vec<TrieNodeODRc<V>> = Vec::new();
    let mut pos: usize = 0;
    let mut j: usize = 0;
    proof {
        lemma_ap_count_total(o, s);
    }
    while j < section.len()
        invariant
            0 < s <= 256,
            o < s,
            plen == 256,
            pat@.len() == 256,
            forall|q: int| 0 <= q < 256 ==> #[trigger] pat@[q] == (ap(o, s, q as nat) % 256) as u8,
            section@.len() <= s,
            section@ == block_counts(o, s).take(section@.len() as int),
            ap_count(o, s, 256 * s) == 256,
            j <= section@.len(),
            pos == ap_count(o, s, (256 * j) as nat),
            lv1@.len() == j,
            forall|i: int| 0 <= i < j ==> (#[trigger] lv1@[i]).node().shaped(1)
                && lv1@[i].node().keys(1) == block_keys(i as nat, 1, s, o),
            forall|i: int| 0 <= i < j ==> leaves_satisfy((#[trigger] lv1@[i]).node(), 1, clone_of(*value)),
        decreases section@.len() - j,
    {
        let tk = section[j];
        let ghost jn: nat = j as nat;
        let ghost a0 = ap_count(o, s, 256 * jn);
        let ghost a1 = ap_count(o, s, 256 * (jn + 1));
        proof {
            lemma_ap_count_mono(o, s, 256 * jn, 256 * (jn + 1));
            lemma_ap_count_mono(o, s, 256 * (jn + 1), 256 * s);
            assert(tk == a1 - a0);
        }
        let mut node: DenseByteNode<V> = DenseByteNode::with_capacity(tk);
        proof {
            assert forall|b: u8| #[trigger] node.slot(b) is Some
                <==> (((256 * jn + b) as nat) % s == o && 256 * jn + b < o + pos * s) by {
                let x = (256 * jn + b) as nat;
                if x % s == o && x < o + pos * s {
                    vstd::arithmetic::div_mod::lemma_fundamental_div_mod(x as int, s as int);
                    let q = x / s;
                    assert(o + q * s == x) by (nonlinear_arith)
                        requires
                            x == s * q + o,
                    ;
                    assert(q < pos) by (nonlinear_arith)
                        requires
                            o + q * s < o + pos * s,
                            s > 0,
                    ;
                    lemma_ap_count_index(o, s, 256 * jn, q);
                }
            }
        }
        let mut t: usize = 0;
        while t < tk
            invariant
                0 < s <= 256,
                o < s,
                plen == 256,
                pat@.len() == 256,
                forall|q: int| 0 <= q < 256 ==> #[trigger] pat@[q] == (ap(o, s, q as nat) % 256) as u8,
                a0 == ap_count(o, s, 256 * jn),
                a1 == ap_count(o, s, 256 * (jn + 1)),
                jn == j,
                a1 <= 256,
                tk == a1 - a0,
                t <= tk,
                pos == a0 + t,
                node.wf(),
                forall|b: u8| #[trigger] node.slot(b) is Some
                    <==> (((256 * jn + b) as nat) % s == o && 256 * jn + b < o + pos * s),
                forall|b: u8| #[trigger] node.slot(b) is Some ==> node.slot(b).unwrap().value is Some
                    && node.slot(b).unwrap().rec is None,
                forall|b: u8| #[trigger] node.slot(b) is Some ==> vstd::pervasive::cloned(*value, node.slot(b).unwrap().value.unwrap()),
            decreases tk - t,
        {
            let ghost x: nat = (o + pos * s) as nat;
            proof {
                lemma_ap_count_index(o, s, 256 * (jn + 1), pos as nat);
                lemma_ap_count_index(o, s, 256 * jn, pos as nat);
                assert(256 * jn <= x < 256 * (jn + 1));
                vstd::arithmetic::div_mod::lemma_small_mod(pos as nat, 256);
                vstd::arithmetic::div_mod::lemma_fundamental_div_mod_converse(x as int, 256, jn as int, x - 256 * jn);
            }
            let k = pat[pos % plen];
            assert(k == x - 256 * jn);
            pos += 1;
            node.set_val(k, value.clone());
            proof {
                assert(x % s == o) by {
                    vstd::arithmetic::div_mod::lemma_mod_multiples_vanish(pos - 1, o as int, s as int);
                    vstd::arithmetic::div_mod::lemma_small_mod(o, s);
                    assert(s * (pos - 1) + o == x) by (nonlinear_arith)
                        requires
                            x == o + (pos - 1) * s,
                    ;
                }
                assert(o + pos * s == x + s) by (nonlinear_arith)
                    requires
                        x == o + (pos - 1) * s,
                ;
                assert forall|b: u8| #[trigger] node.slot(b) is Some
                    <==> (((256 * jn + b) as nat) % s == o && 256 * jn + b < o + pos * s) by {
                    let y = (256 * jn + b) as nat;
                    if y % s == o && x <= y && y < x + s {
                        lemma_same_class_close(y, x, s);
                    }
                }
            }
            t += 1;
        }
        proof {
            lemma_ap_count_index(o, s, 256 * (jn + 1), a1);
            assert forall|u: Seq<u8>| #[trigger] node.has_key(1, u) <==> block_keys(jn, 1, s, o).contains(u) by {
                if u.len() == 1 {
                    lemma_be_value_single(u);
                    reveal_with_fuel(pow256, 2);
                    assert(jn * pow256(1) == 256 * jn) by (nonlinear_arith)
                        requires
                            pow256(1) == 256,
                    ;
                    assert(256 * jn + u[0] < o + pos * s);
                }
            }
            assert(node.keys(1) =~= block_keys(jn, 1, s, o));
        }
        lv1.push(TrieNodeODRc::new(node));
        j += 1;
    }
    lv1
}

/// The next level up: `count` nodes, node `m` holding as child `k` the node
/// `prev[(256 * m + k) % prev.len()]`, taken by cycling through `prev`.
fn build_upper_level<V>(
    prev: &Vec<TrieNodeODRc<V>>,
    count: u16,
    Ghost(l): Ghost<nat>,
    Ghost(o): Ghost<nat>,
    Ghost(s): Ghost<nat>,
    Ghost(ok): Ghost<spec_fn(V) -> bool>,
) -> (r: Vec<TrieNodeODRc<V>>)
    requires
        forall|m: int| 0 <= m < prev@.len() ==> leaves_satisfy((#[trigger] prev@[m]).node(), l, ok),
        l >= 1,
        0 < s,
        prev@.len() > 0,
        ((prev@.len() as nat) * pow256(l)) % s == 0,
        forall|m: int| 0 <= m < prev@.len() ==> (#[trigger] prev@[m]).node().shaped(l)
            && prev@[m].node().keys(l) == block_keys(m as nat, l, s, o),
    ensures
        r@.len() == count,
        forall|m: int| 0 <= m < r@.len() ==> (#[trigger] r@[m]).node().shaped(l + 1)
            && r@[m].node().keys(l + 1) == block_keys(m as nat, l + 1, s, o),
        forall|m: int| 0 <= m < r@.len() ==> leaves_satisfy((#[trigger] r@[m]).node(), l + 1, ok),
{
    let plen = prev.len();
    let mut cyc: usize = 0;
    let mut lv_current: Vec<TrieNodeODRc<V>> = Vec::new();
    let mut c: u16 = 0;
    while c < count
        invariant
            l >= 1,
            0 < s,
            plen == prev@.len(),
            plen > 0,
            ((plen as nat) * pow256(l)) % s == 0,
            forall|m: int| 0 <= m < prev@.len() ==> (#[trigger] prev@[m]).node().shaped(l)
                && prev@[m].node().keys(l) == block_keys(m as nat, l, s, o),
            c <= count,
            cyc == 256 * c,
            lv_current@.len() == c,
            forall|m: int| 0 <= m < lv_current@.len() ==> (#[trigger] lv_current@[m]).node().shaped(l + 1)
                && lv_current@[m].node().keys(l + 1) == block_keys(m as nat, l + 1, s, o),
            forall|m: int| 0 <= m < prev@.len() ==> leaves_satisfy((#[trigger] prev@[m]).node(), l, ok),
            forall|m: int| 0 <= m < lv_current@.len() ==> leaves_satisfy((#[trigger] lv_current@[m]).node(), l + 1, ok),
        decreases count - c,
    {
        let mut node: DenseByteNode<V> = DenseByteNode::with_capacity(256);
        let mut k: usize = 0;
        while k < 256
            invariant
                l >= 1,
                0 < s,
                plen == prev@.len(),
                plen > 0,
                ((plen as nat) * pow256(l)) % s == 0,
                forall|m: int| 0 <= m < prev@.len() ==> (#[trigger] prev@[m]).node().shaped(l)
                    && prev@[m].node().keys(l) == block_keys(m as nat, l, s, o),
                c < count,
                k <= 256,
                cyc == 256 * c + k,
                node.wf(),
                forall|b: u8| #[trigger] node.slot(b) is Some <==> b < k,
                forall|b: u8| #[trigger] node.slot(b) is Some ==> {
                    &&& node.slot(b).unwrap().value is None
                    &&& node.slot(b).unwrap().rec is Some
                    &&& child_of(node, b).shaped(l)
                    &&& child_of(node, b).keys(l) == block_keys((256 * c + b) as nat, l, s, o)
                    &&& leaves_satisfy(child_of(node, b), l, ok)
                },
                forall|m: int| 0 <= m < prev@.len() ==> leaves_satisfy((#[trigger] prev@[m]).node(), l, ok),
            decreases 256 - k,
        {
            let idx = cyc % plen;
            let ch = prev[idx].share();
            proof {
                lemma_block_period(cyc as nat, plen as nat, l, s, o);
            }
            cyc += 1;
            node.set_child(k as u8, ch);
            k += 1;
        }
        proof {
            lemma_level_keys(node, c as nat, l, s, o);
        }
        lv_current.push(TrieNodeODRc::new(node));
        c += 1;
    }
    lv_current
}

/// The keys below byte `b` in the top node of the range from the number of `start` to that of
/// `stop`: the rests `w` such that `b` followed by `w` is a key of the range.
pub open spec fn range_child_keys(start: Seq<u8>, stop: Seq<u8>, step: nat, b: u8) -> Set<Seq<u8>> {
    Set::new(|w: Seq<u8>| range_keys(be_value(start), be_value(stop), step, start.len()).contains(seq![b] + w))
}

/// When `b` followed by `w` is a key of the range, byte by byte.
proof fn lemma_range_child_member(start: Seq<u8>, stop: Seq<u8>, step: nat, b: u8, w: Seq<u8>)
    requires
        start.len() == stop.len(),
        start.len() >= 2,
        step > 0,
        w.len() == start.len() - 1,
    ensures
        range_child_keys(start, stop, step, b).contains(w) == {
            &&& ((b * pow256(w.len()) + be_value(w)) as nat) % step == be_value(start) % step
            &&& (b > start[0] || (b == start[0] && be_value(w) >= be_value(start.drop_first())))
            &&& (b < stop[0] || (b == stop[0] && be_value(w) < be_value(stop.drop_first())))
        },
{
    let u = seq![b] + w;
    assert(u.drop_first() =~= w);
    assert(u[0] == b);
    lemma_be_value_prepend(b, w);
    lemma_be_value_order(u, start);
    lemma_be_value_order(start, u);
    lemma_be_value_order(u, stop);
    lemma_be_value_order(stop, u);
}

/// A top node whose every slot holds a child with exactly the keys of the range below its byte
/// (and whose empty slots would hold none) holds exactly the keys of the range.
proof fn lemma_top_assembly<V>(top: DenseByteNode<V>, start: Seq<u8>, stop: Seq<u8>, step: nat)
    requires
        start.len() == stop.len(),
        start.len() >= 2,
        top.wf(),
        forall|b: u8| #[trigger] top.slot(b) is Some ==> {
            &&& top.slot(b).unwrap().value is None
            &&& top.slot(b).unwrap().rec is Some
            &&& child_of(top, b).shaped((start.len() - 1) as nat)
            &&& child_of(top, b).keys((start.len() - 1) as nat) == range_child_keys(start, stop, step, b)
        },
        forall|b: u8| #[trigger] top.slot(b) is None ==> range_child_keys(start, stop, step, b) == Set::<Seq<u8>>::empty(),
    ensures
        top.shaped(start.len()),
        top.keys(start.len()) == range_keys(be_value(start), be_value(stop), step, start.len()),
{
    let n = start.len();
    let lc = (n - 1) as nat;
    assert forall|u: Seq<u8>| #[trigger] top.has_key(n, u) <==> range_keys(be_value(start), be_value(stop), step, n).contains(u) by {
        if u.len() == n {
            let b = u[0];
            let w = u.drop_first();
            assert(u =~= seq![b] + w);
            assert(range_child_keys(start, stop, step, b).contains(w) == range_keys(be_value(start), be_value(stop), step, n).contains(u));
            if top.slot(b) is Some {
                assert(child_of(top, b).keys(lc).contains(w) == child_of(top, b).has_key(lc, w));
            } else {
                assert(!range_child_keys(start, stop, step, b).contains(w));
            }
        }
    }
    assert(top.keys(n) =~= range_keys(be_value(start), be_value(stop), step, n));
}

/// Every term stays below 257 times the step, which fits the type of a range of at least two bytes.
proof fn lemma_range_successors(o: nat, s: nat, max: nat, n: nat)
    requires
        n >= 2,
        max + 1 == pow256(n),
        1 <= s <= 256,
        256 * s <= max,
    ensures
        max >= 256,
        successors_fit(o, s, pattern_limit(max, s), max),
{
    lemma_pow256_mono(2, n);
    reveal_with_fuel(pow256, 4);
    if s == 256 {
        assert(n != 2);
        lemma_pow256_mono(3, n);
    }
    assert(257 * s <= max + 1);
    assert forall|k: nat| #[trigger] ap(o, s, k) < pattern_limit(max, s) implies ap(o, s, k + 1) <= max by {
        lemma_ap_step(o, s, k);
    }
}

/// The keys of the range below a byte strictly between the first bytes of `start` and `stop`
/// are the whole block of that byte.
proof fn lemma_middle_child(start: Seq<u8>, stop: Seq<u8>, step: nat, b: u8)
    requires
        start.len() == stop.len(),
        start.len() >= 2,
        step > 0,
        start[0] < b < stop[0],
    ensures
        range_child_keys(start, stop, step, b)
            == block_keys(b as nat, (start.len() - 1) as nat, step, be_value(start) % step),
{
    let l = (start.len() - 1) as nat;
    assert forall|w: Seq<u8>| range_child_keys(start, stop, step, b).contains(w)
        <==> block_keys(b as nat, l, step, be_value(start) % step).contains(w) by {
        if w.len() == l {
            lemma_range_child_member(start, stop, step, b, w);
        }
    }
    assert(range_child_keys(start, stop, step, b) =~= block_keys(b as nat, l, step, be_value(start) % step));
}

/// No key of the range starts with a byte outside the first bytes of `start` and `stop`.
proof fn lemma_outside_child(start: Seq<u8>, stop: Seq<u8>, step: nat, b: u8)
    requires
        start.len() == stop.len(),
        start.len() >= 2,
        step > 0,
        b < start[0] || b > stop[0],
    ensures
        range_child_keys(start, stop, step, b) == Set::<Seq<u8>>::empty(),
{
    let l = (start.len() - 1) as nat;
    assert forall|w: Seq<u8>| !range_child_keys(start, stop, step, b).contains(w) by {
        if w.len() == l {
            lemma_range_child_member(start, stop, step, b, w);
        }
    }
    assert(range_child_keys(start, stop, step, b) =~= Set::empty());
}

/// Below the first byte of `start`, when it differs from that of `stop`, the range holds the
/// keys of that byte's block from the rest of `start` on.
proof fn lemma_low_child<V>(start: Seq<u8>, stop: Seq<u8>, step: nat, node: DenseByteNode<V>)
    requires
        start.len() == stop.len(),
        start.len() >= 2,
        step > 0,
        start[0] < stop[0],
        node.keys((start.len() - 1) as nat) == block_keys(start[0] as nat, (start.len() - 1) as nat, step, be_value(start) % step),
    ensures
        keys_from(node, (start.len() - 1) as nat, start.skip(1)) == range_child_keys(start, stop, step, start[0]),
{
    let l = (start.len() - 1) as nat;
    assert(start.skip(1) =~= start.drop_first());
    assert forall|w: Seq<u8>| keys_from(node, l, start.skip(1)).contains(w)
        <==> range_child_keys(start, stop, step, start[0]).contains(w) by {
        assert(node.keys(l).contains(w) == node.has_key(l, w));
        if w.len() == l {
            lemma_range_child_member(start, stop, step, start[0], w);
        }
    }
    assert(keys_from(node, l, start.skip(1)) =~= range_child_keys(start, stop, step, start[0]));
}

/// Below the first byte of `stop`, when it differs from that of `start`, the range holds the
/// keys of that byte's block below the rest of `stop`.
proof fn lemma_high_child<V>(start: Seq<u8>, stop: Seq<u8>, step: nat, node: DenseByteNode<V>)
    requires
        start.len() == stop.len(),
        start.len() >= 2,
        step > 0,
        start[0] < stop[0],
        node.keys((start.len() - 1) as nat) == block_keys(stop[0] as nat, (start.len() - 1) as nat, step, be_value(start) % step),
    ensures
        keys_below(node, (start.len() - 1) as nat, stop.skip(1)) == range_child_keys(start, stop, step, stop[0]),
{
    let l = (start.len() - 1) as nat;
    assert(stop.skip(1) =~= stop.drop_first());
    assert forall|w: Seq<u8>| keys_below(node, l, stop.skip(1)).contains(w)
        <==> range_child_keys(start, stop, step, stop[0]).contains(w) by {
        assert(node.keys(l).contains(w) == node.has_key(l, w));
        if w.len() == l {
            lemma_range_child_member(start, stop, step, stop[0], w);
        }
    }
    assert(keys_below(node, l, stop.skip(1)) =~= range_child_keys(start, stop, step, stop[0]));
}

/// Below a first byte that `start` and `stop` share, the range holds the keys of that byte's
/// block between the rests of `start` and `stop`.
proof fn lemma_both_child<V>(start: Seq<u8>, stop: Seq<u8>, step: nat, node: DenseByteNode<V>)
    requires
        start.len() == stop.len(),
        start.len() >= 2,
        step > 0,
        start[0] == stop[0],
        node.keys((start.len() - 1) as nat) == block_keys(start[0] as nat, (start.len() - 1) as nat, step, be_value(start) % step),
    ensures
        keys_between(node, (start.len() - 1) as nat, start.skip(1), stop.skip(1)) == range_child_keys(start, stop, step, start[0]),
{
    let l = (start.len() - 1) as nat;
    assert(start.skip(1) =~= start.drop_first());
    assert(stop.skip(1) =~= stop.drop_first());
    assert forall|w: Seq<u8>| keys_between(node, l, start.skip(1), stop.skip(1)).contains(w)
        <==> range_child_keys(start, stop, step, start[0]).contains(w) by {
        assert(node.keys(l).contains(w) == node.has_key(l, w));
        if w.len() == l {
            lemma_range_child_member(start, stop, step, start[0], w);
        }
    }
    assert(keys_between(node, l, start.skip(1), stop.skip(1)) =~= range_child_keys(start, stop, step, start[0]));
}

/// The top node of the range: under each byte strictly between the first bytes of
/// `split_start` and `split_stop` the block of that byte, taken by cycling through `level`, and
/// under those two bytes their blocks cut down to the range.
#[verifier::rlimit(40)]
fn build_top<V: Clone, const N: usize, R: UsefulNumber<N>>(
    level: &Vec<TrieNodeODRc<V>>,
    split_start: &Vec<u8>,
    split_stop: &Vec<u8>,
    step: R,
    offset: R,
    Ghost(ok): Ghost<spec_fn(V) -> bool>,
) -> (r: DenseByteNode<V>)
    requires
        forall|m: int| 0 <= m < level@.len() ==> leaves_satisfy((#[trigger] level@[m]).node(), (N - 1) as nat, ok),
        N >= 2,
        split_start@.len() == N,
        split_stop@.len() == N,
        be_value(split_start@) < be_value(split_stop@),
        1 <= step.val() <= 256,
        offset.val() == be_value(split_start@) % step.val(),
        level@.len() > 0,
        ((level@.len() as nat) * pow256((N - 1) as nat)) % step.val() == 0,
        forall|m: int| 0 <= m < level@.len() ==> (#[trigger] level@[m]).node().shaped((N - 1) as nat)
            && level@[m].node().keys((N - 1) as nat) == block_keys(m as nat, (N - 1) as nat, step.val(), offset.val()),
    ensures
        r.shaped(N as nat),
        r.keys(N as nat) == range_keys(be_value(split_start@), be_value(split_stop@), step.val(), N as nat),
        leaves_satisfy(r, N as nat, or_clone_of(ok)),
{
    let ghost st = split_start@;
    let ghost sp = split_stop@;
    let ghost s = step.val();
    let ghost o = offset.val();
    let ghost l = (N - 1) as nat;
    let tl = level.len();
    let s0 = split_start[0];
    let t0 = split_stop[0];
    proof {
        lemma_be_value_order(st, sp);
        lemma_be_value_order(sp, st);
        assert forall|b: u8| #![trigger level@[(b as nat % tl as nat) as int]]
            level@[(b as nat % tl as nat) as int].node().keys(l) == block_keys(b as nat, l, s, o) by {
            lemma_block_period(b as nat, tl as nat, l, s, o);
        }
    }
    let mut new_node: DenseByteNode<V> = DenseByteNode::new();
    let mut pos: usize = s0 as usize;
    if s0 != t0 {
        let prev_node = &level[pos % tl];
        pos += 1;
        let mut k: u8 = s0 + 1;
        while k < t0
            invariant
                s0 < k <= t0,
                pos == k,
                tl == level@.len(),
                tl > 0,
                new_node.wf(),
                forall|m: int| 0 <= m < level@.len() ==> (#[trigger] level@[m]).node().shaped(l),
                forall|b: u8| #![trigger level@[(b as nat % tl as nat) as int]]
                    level@[(b as nat % tl as nat) as int].node().keys(l) == block_keys(b as nat, l, s, o),
                forall|b: u8| #[trigger] new_node.slot(b) is Some <==> (s0 < b < k),
                forall|b: u8| #[trigger] new_node.slot(b) is Some ==> {
                    &&& new_node.slot(b).unwrap().value is None
                    &&& new_node.slot(b).unwrap().rec is Some
                    &&& child_of(new_node, b).shaped(l)
                    &&& child_of(new_node, b).keys(l) == block_keys(b as nat, l, s, o)
                    &&& leaves_satisfy(child_of(new_node, b), l, ok)
                },
                forall|m: int| 0 <= m < level@.len() ==> leaves_satisfy((#[trigger] level@[m]).node(), l, ok),
            decreases t0 - k,
        {
            let idx = pos % tl;
            assert(idx == (k as nat % tl as nat) as int);
            new_node.set_child(k, level[idx].share());
            pos += 1;
            k += 1;
        }
        let next_node = &level[pos % tl];
        let ghost mid = new_node;
        proof {
            assert(st.take(1) =~= seq![s0]);
            assert(sp.take(1) =~= seq![t0]);
            lemma_be_value_single(seq![t0]);
            assert forall|u: Seq<u8>| #[trigger] next_node.node().has_key(l, u) implies
                (be_value(sp.take(1)) * pow256(l) + be_value(u)) % s == o by {
                assert(next_node.node().keys(l).contains(u));
            }
            assert(keys_in_class(next_node.node(), sp, 1, s, o));
        }
        match start_generator(split_start.as_slice(), 1, prev_node.as_dense(), step) {
            Some(d_start) => {
                proof {
                    lemma_copied_along_leaves(d_start, prev_node.node(), l, st.skip(1), ok);
                }
                new_node.set_child(s0, TrieNodeODRc::new(d_start));
                assert(leaves_satisfy(child_of(new_node, s0), l, or_clone_of(ok)));
            },
            None => {},
        }
        let ghost after_start = new_node;
        match stop_generator(split_stop.as_slice(), 1, next_node.as_dense(), step, offset) {
            Some(d_stop) => {
                proof {
                    lemma_copied_along_leaves(d_stop, next_node.node(), l, sp.skip(1), ok);
                }
                new_node.set_child(t0, TrieNodeODRc::new(d_stop));
                assert(leaves_satisfy(child_of(new_node, t0), l, or_clone_of(ok)));
            },
            None => {},
        }
        proof {
            lemma_low_child(st, sp, s, prev_node.node());
            lemma_high_child(st, sp, s, next_node.node());
            assert forall|b: u8| #[trigger] new_node.slot(b) is Some implies {
                &&& new_node.slot(b).unwrap().value is None
                &&& new_node.slot(b).unwrap().rec is Some
                &&& child_of(new_node, b).shaped(l)
                &&& child_of(new_node, b).keys(l) == range_child_keys(st, sp, s, b)
            } by {
                if s0 < b && b < t0 {
                    assert(mid.slot(b) is Some);
                    lemma_middle_child(st, sp, s, b);
                } else if b == s0 {
                } else if b == t0 {
                }
            }
            assert forall|b: u8| #[trigger] new_node.slot(b) is None implies
                range_child_keys(st, sp, s, b) == Set::<Seq<u8>>::empty() by {
                if b < s0 || b > t0 {
                    lemma_outside_child(st, sp, s, b);
                } else if s0 < b && b < t0 {
                    assert(mid.slot(b) is Some);
                }
            }
            lemma_top_assembly(new_node, st, sp, s);
            assert forall|b: u8| #[trigger] new_node.slot(b) is Some implies
                leaves_satisfy(child_of(new_node, b), l, or_clone_of(ok)) by {
                if s0 < b && b < t0 {
                    assert(mid.slot(b) is Some);
                    assert(child_of(new_node, b) == child_of(mid, b));
                    lemma_leaves_weaken(child_of(mid, b), l, ok, or_clone_of(ok));
                } else if b == s0 {
                    assert(after_start.slot(s0) is Some);
                } else {
                }
            }
        }
    } else {
        let node = &level[pos % tl];
        proof {
            assert(st.take(1) =~= seq![s0]);
            assert(sp.take(1) =~= seq![t0]);
            lemma_be_value_single(seq![t0]);
            assert(st.skip(1) =~= st.drop_first());
            assert(sp.skip(1) =~= sp.drop_first());
        }
        proof {
            lemma_block_common_path(node.node(), t0 as nat, l, s, o, st.skip(1), sp.skip(1));
            assert forall|u: Seq<u8>| #[trigger] node.node().has_key(l, u) implies
                (be_value(sp.take(1)) * pow256(l) + be_value(u)) % s == o by {
                assert(node.node().keys(l).contains(u));
            }
            assert(keys_in_class(node.node(), sp, 1, s, o));
        }
        let d_double = double_sided_generator(1, split_start.as_slice(), split_stop.as_slice(), node.as_dense(), step, offset);
        proof {
            lemma_both_child(st, sp, s, node.node());
            lemma_copied_between_leaves(d_double, node.node(), l, st.skip(1), sp.skip(1), ok);
        }
        new_node.set_child(s0, TrieNodeODRc::new(d_double));
        proof {
            assert forall|b: u8| #[trigger] new_node.slot(b) is None implies
                range_child_keys(st, sp, s, b) == Set::<Seq<u8>>::empty() by {
                lemma_outside_child(st, sp, s, b);
            }
            lemma_top_assembly(new_node, st, sp, s);
        }
    }
    new_node
}

/// Builds a trie whose keys are the `NUM_SIZE`-byte big-endian numbers from `start` up to, not
/// including, `stop`, going up by `step`, each holding a clone of `value`.  Below the top node,
/// blocks that hold the same keys share one node, so the trie stays small however long the
/// range.
pub fn compressed_range<V: Clone, const NUM_SIZE: usize, R: UsefulNumber<NUM_SIZE>>(
    start: R,
    stop: R,
    step: R,
    value: V,
) -> (r: Option<TrieNodeODRc<V>>)
    requires
        start.val() < stop.val(),
        1 <= step.val() <= 256,
        NUM_SIZE >= 2 ==> 256 * step.val() <= R::max_val(),
    ensures
        r is Some,
        r.unwrap().node().shaped(NUM_SIZE as nat),
        r.unwrap().node().keys(NUM_SIZE as nat) == range_keys(start.val(), stop.val(), step.val(), NUM_SIZE as nat),
        leaves_satisfy(r.unwrap().node(), NUM_SIZE as nat, or_clone_of(clone_of(value))),
{
    proof {
        start.lemma_width();
        stop.lemma_width();
    }
    if NUM_SIZE == 1 {
        proof {
            reveal_with_fuel(pow256, 2);
        }
        let ghost v = value;
        let node = one_byte_range(start.to_u128(), stop.to_u128(), step.to_u128(), value);
        proof {
            lemma_leaves_weaken(node, 1, clone_of(v), or_clone_of(clone_of(v)));
        }
        return Some(TrieNodeODRc::new(node));
    }
    let sv = start.to_u128();
    let tv = stop.to_u128();
    let s = step.to_u128();
    let ghost n = NUM_SIZE as nat;
    let ghost sn = s as nat;
    let ghost o = (sv % s) as nat;
    proof {
        lemma_pow256_mono(n, 16);
        reveal_with_fuel(pow256, 17);
        lemma_be_bytes_value(sv as nat, n);
        lemma_be_bytes_value(tv as nat, n);
        lemma_range_successors(o, sn, R::max_val(), n);
    }
    let split_start = be_bytes_of(sv, NUM_SIZE);
    let split_stop = be_bytes_of(tv, NUM_SIZE);
    let offset: R = R::from_u128(sv % s);
    let pat = pattern(step, offset);
    let r1 = repetition(step, offset);
    proof {
        lemma_ap_count_total(o, sn);
    }
    let (rep, section) = decompose_seq(r1.as_slice());
    let ghost p = section@.len();
    proof {
        let q = choose|q: int| #[trigger] smallest_period(r1@, q) && if (r1@.len() as int) % q == 0 {
            rep == r1@.len() && section@ == r1@.take(q)
        } else {
            rep == 1 && section@ == r1@
        };
        if (r1@.len() as int) % q == 0 {
            lemma_period_divides(o, sn, p);
        } else {
            vstd::arithmetic::div_mod::lemma_mod_multiples_basic(256, sn as int);
            assert(section@ =~= block_counts(o, sn).take(p as int));
        }
        reveal_with_fuel(pow256, 2);
        assert(p * pow256(1) == 256 * p) by (nonlinear_arith)
            requires
                pow256(1) == 256,
        ;
    }
    let stop_order = split_stop.len() - 1;
    let mut lv: Vec<TrieNodeODRc<V>> = Vec::new();
    if rep > 0 {
        lv = build_base_level(&pat, section, &value, Ghost(o), Ghost(sn));
    }
    let s16 = s as u16;
    let mut lvl: usize = 1;
    while lvl < stop_order
        invariant
            stop_order == NUM_SIZE - 1,
            1 <= lvl <= stop_order,
            0 < sn <= 256,
            o < sn,
            s16 == sn,
            lv@.len() > 0,
            ((lv@.len() as nat) * pow256(lvl as nat)) % sn == 0,
            forall|m: int| 0 <= m < lv@.len() ==> (#[trigger] lv@[m]).node().shaped(lvl as nat)
                && lv@[m].node().keys(lvl as nat) == block_keys(m as nat, lvl as nat, sn, o),
            forall|m: int| 0 <= m < lv@.len() ==> leaves_satisfy((#[trigger] lv@[m]).node(), lvl as nat, clone_of(value)),
        decreases stop_order - lvl,
    {
        lv = build_upper_level(&lv, s16, Ghost(lvl as nat), Ghost(o), Ghost(sn), Ghost(clone_of(value)));
        proof {
            vstd::arithmetic::div_mod::lemma_mod_multiples_basic(pow256((lvl + 1) as nat) as int, sn as int);
            assert(pow256((lvl + 1) as nat) * sn == sn * pow256((lvl + 1) as nat)) by (nonlinear_arith);
        }
        lvl += 1;
    }
    let top = build_top(&lv, &split_start, &split_stop, step, offset, Ghost(clone_of(value)));
    Some(TrieNodeODRc::new(top))
}

/// The keys of a sequence of entries.
pub open spec fn entry_keys<V>(es: Seq<(Seq<u8>, V)>) -> Seq<Seq<u8>> {
    es.map_values(|e: (Seq<u8>, V)| e.0)
}

/// Keys whose numbers strictly increase.
pub open spec fn increasing(ks: Seq<Seq<u8>>) -> bool {
    forall|i: int, j: int| 0 <= i < j < ks.len() ==> be_value(ks[i]) < be_value(ks[j])
}

/// Of two keys of one length with a common prefix, the one with the smaller byte after the
/// prefix has the smaller number.
proof fn lemma_prefix_order(x: Seq<u8>, y: Seq<u8>, p: nat)
    requires
        x.len() == y.len(),
        p < x.len(),
        x.take(p as int) == y.take(p as int),
        x[p as int] < y[p as int],
    ensures
        be_value(x) < be_value(y),
{
    let xs = x.skip(p as int);
    let ys = y.skip(p as int);
    assert(x =~= x.take(p as int) + xs);
    assert(y =~= y.take(p as int) + ys);
    lemma_be_value_concat(x.take(p as int), xs);
    lemma_be_value_concat(y.take(p as int), ys);
    lemma_be_value_order(xs, ys);
}

/// The entries under byte `b` of a node whose keys are `l` bytes long, below a prefix, come in
/// increasing order of their keys, each key being the prefix, `b`, and the rest of a key of the
/// node, and every key of the node that starts with `b` comes up.
#[verifier::spinoff_prover]
#[verifier::rlimit(30)]
proof fn lemma_entries_at_shaped<V>(n: DenseByteNode<V>, l: nat, h: nat, b: u8, pre: Seq<u8>)
    requires
        n.shaped(l),
        h + 1 >= l,
    ensures
        increasing(entry_keys(entries_at(n, h, b, pre))),
        forall|i: int| 0 <= i < entries_at(n, h, b, pre).len() ==> {
            let k = #[trigger] entry_keys(entries_at(n, h, b, pre))[i];
            &&& k.len() == pre.len() + l
            &&& k.take(pre.len() as int) == pre
            &&& k[pre.len() as int] == b
            &&& n.has_key(l, k.skip(pre.len() as int))
        },
        forall|u: Seq<u8>| #[trigger] n.has_key(l, u) && u[0] == b ==> entry_keys(entries_at(n, h, b, pre)).contains(pre + u),
    decreases l, 0nat,
{
    let here = entries_at(n, h, b, pre);
    let hk = entry_keys(here);
    let q = pre.push(b);
    if n.slot(b) is Some && l >= 2 {
        let child = n.slot(b).unwrap().rec.unwrap().node();
        lemma_entries_shaped(child, (l - 1) as nat, (h - 1) as nat, 0, q);
        assert(here =~= entries_from(child, (h - 1) as nat, 0, q));
        assert forall|i: int| 0 <= i < here.len() implies {
            let k = #[trigger] hk[i];
            &&& k.len() == pre.len() + l
            &&& k.take(pre.len() as int) == pre
            &&& k[pre.len() as int] == b
            &&& n.has_key(l, k.skip(pre.len() as int))
        } by {
            let k = hk[i];
            assert(k.take(q.len() as int) == q);
            assert(k.take(pre.len() as int) =~= q.take(pre.len() as int));
            assert(k.take(q.len() as int)[pre.len() as int] == k[pre.len() as int]);
            let w = k.skip(q.len() as int);
            assert(child.has_key((l - 1) as nat, w));
            assert(k.skip(pre.len() as int).drop_first() =~= w);
        }
        assert forall|u: Seq<u8>| #[trigger] n.has_key(l, u) && u[0] == b implies hk.contains(pre + u) by {
            let w = u.drop_first();
            assert(child.has_key((l - 1) as nat, w));
            assert(q + w =~= pre + u);
        }
    } else if n.slot(b) is Some {
        assert(here =~= seq![(q, n.slot(b).unwrap().value.unwrap())]);
        assert(hk =~= seq![q]);
        assert(q.take(pre.len() as int) =~= pre);
        assert(q.skip(pre.len() as int) =~= seq![b]);
        assert forall|u: Seq<u8>| #[trigger] n.has_key(l, u) && u[0] == b implies hk.contains(pre + u) by {
            assert(u =~= seq![b]);
            assert(pre + u =~= q);
            assert(hk[0] == q);
        }
    }
}

/// The entries of a node whose keys are `l` bytes long, from byte `b` on and below a prefix,
/// come in increasing order of their keys, each key being the prefix followed by a key of the
/// node, and every such key from byte `b` on comes up.
proof fn lemma_entries_shaped<V>(n: DenseByteNode<V>, l: nat, h: nat, b: nat, pre: Seq<u8>)
    requires
        n.shaped(l),
        h + 1 >= l,
        b <= 256,
    ensures
        increasing(entry_keys(entries_from(n, h, b, pre))),
        forall|i: int| 0 <= i < entries_from(n, h, b, pre).len() ==> {
            let k = #[trigger] entry_keys(entries_from(n, h, b, pre))[i];
            &&& k.len() == pre.len() + l
            &&& k.take(pre.len() as int) == pre
            &&& k[pre.len() as int] >= b
            &&& n.has_key(l, k.skip(pre.len() as int))
        },
        forall|u: Seq<u8>| #[trigger] n.has_key(l, u) && u[0] >= b ==> entry_keys(entries_from(n, h, b, pre)).contains(pre + u),
    decreases l, 257 - b,
{
    let es = entries_from(n, h, b, pre);
    let ks = entry_keys(es);
    if b >= 256 {
        assert forall|u: Seq<u8>| #[trigger] n.has_key(l, u) && u[0] >= b implies ks.contains(pre + u) by {
            assert(u[0] < 256);
        }
    } else {
        let bb = b as u8;
        let here = entries_at(n, h, bb, pre);
        let rest = entries_from(n, h, b + 1, pre);
        lemma_entries_at_shaped(n, l, h, bb, pre);
        lemma_entries_shaped(n, l, h, b + 1, pre);
        let hk = entry_keys(here);
        let rk = entry_keys(rest);
        assert(ks =~= hk + rk);
        assert(increasing(ks)) by {
            assert forall|i: int, j: int| 0 <= i < j < ks.len() implies be_value(ks[i]) < be_value(ks[j]) by {
                if j < hk.len() {
                    assert(hk[i] == ks[i] && hk[j] == ks[j]);
                } else if i >= hk.len() {
                    assert(rk[i - hk.len()] == ks[i] && rk[j - hk.len()] == ks[j]);
                } else {
                    let x = ks[i];
                    let y = ks[j];
                    assert(x == hk[i]);
                    assert(y == rk[j - hk.len()]);
                    assert(x.take(pre.len() as int) =~= y.take(pre.len() as int));
                    lemma_prefix_order(x, y, pre.len());
                }
            }
        }
        assert forall|i: int| 0 <= i < es.len() implies {
            let k = #[trigger] ks[i];
            &&& k.len() == pre.len() + l
            &&& k.take(pre.len() as int) == pre
            &&& k[pre.len() as int] >= b
            &&& n.has_key(l, k.skip(pre.len() as int))
        } by {
            if i < hk.len() {
                assert(ks[i] == hk[i]);
            } else {
                assert(ks[i] == rk[i - hk.len()]);
            }
        }
        assert forall|u: Seq<u8>| #[trigger] n.has_key(l, u) && u[0] >= b implies ks.contains(pre + u) by {
            if u[0] == bb {
                assert(hk.contains(pre + u));
                let t = choose|t: int| 0 <= t < hk.len() && hk[t] == pre + u;
                assert(ks[t] == hk[t]);
            } else {
                assert(rk.contains(pre + u));
                let t = choose|t: int| 0 <= t < rk.len() && rk[t] == pre + u;
                assert(ks[hk.len() + t] == rk[t]);
            }
        }
    }
}

/// `x` is a term of the progression from `start` by `step` below `stop`.
pub open spec fn in_progression(x: nat, start: nat, stop: nat, step: nat) -> bool {
    start <= x < stop && x % step == start % step
}

/// A node bounded by `h` that holds a key of length `l` reaches `l - 1` steps down.
proof fn lemma_bound_depth<V>(n: DenseByteNode<V>, l: nat, h: nat, u: Seq<u8>)
    requires
        bounded(n, h),
        n.has_key(l, u),
    ensures
        h + 1 >= l,
    decreases l,
{
    if l >= 2 {
        let c = n.slot(u[0]).unwrap();
        assert(n.slot(u[0]) is Some && c.rec is Some);
        lemma_bound_depth(c.rec.unwrap().node(), (l - 1) as nat, (h - 1) as nat, u.drop_first());
    }
}

/// The entries of a trie that holds a range are increasing, lie in the range, and take up
/// every number of the range.
proof fn lemma_range_entries<V>(root: DenseByteNode<V>, n: nat, start: nat, stop: nat, step: nat, h: nat)
    requires
        n >= 1,
        start < stop <= pow256(n),
        step >= 1,
        root.shaped(n),
        root.keys(n) == range_keys(start, stop, step, n),
        bounded(root, h),
    ensures
        increasing(entry_keys(entries_from(root, h, 0, Seq::empty()))),
        forall|t: int| 0 <= t < entry_keys(entries_from(root, h, 0, Seq::empty())).len() ==> {
            let k = #[trigger] entry_keys(entries_from(root, h, 0, Seq::empty()))[t];
            &&& k.len() == n
            &&& in_progression(be_value(k), start, stop, step)
        },
        forall|x: nat| #[trigger] in_progression(x, start, stop, step) ==>
            exists|j: int| 0 <= j < entry_keys(entries_from(root, h, 0, Seq::empty())).len()
                && #[trigger] be_value(entry_keys(entries_from(root, h, 0, Seq::empty()))[j]) == x,
{
    let ks = entry_keys(entries_from(root, h, 0, Seq::empty()));
    let e: Seq<u8> = Seq::empty();
    lemma_be_bytes_value(start, n);
    assert(range_keys(start, stop, step, n).contains(be_bytes(start, n)));
    lemma_bound_depth(root, n, h, be_bytes(start, n));
    lemma_entries_shaped(root, n, h, 0, e);
    assert forall|x: nat| #[trigger] in_progression(x, start, stop, step) implies
        exists|j: int| 0 <= j < ks.len() && #[trigger] be_value(ks[j]) == x by {
        lemma_be_bytes_value(x, n);
        let u = be_bytes(x, n);
        assert(range_keys(start, stop, step, n).contains(u));
        assert(root.has_key(n, u));
        assert(e + u =~= u);
        assert(ks.contains(u));
        let j = choose|j: int| 0 <= j < ks.len() && ks[j] == u;
        assert(be_value(ks[j]) == x);
    }
    assert forall|t: int| 0 <= t < ks.len() implies {
        let k = #[trigger] ks[t];
        &&& k.len() == n
        &&& in_progression(be_value(k), start, stop, step)
    } by {
        assert(ks[t].skip(0) =~= ks[t]);
        assert(root.keys(n).contains(ks[t]));
    }
}

/// The entries of a trie that holds a range come in the order of the range: the `i`-th key,
/// `n` bytes long, is the number `start + i * step`, and there is one key for each term of the
/// progression below `stop`.
pub proof fn law_range_entries_in_order<V>(root: DenseByteNode<V>, n: nat, start: nat, stop: nat, step: nat, h: nat)
    requires
        n >= 1,
        start < stop <= pow256(n),
        step >= 1,
        root.shaped(n),
        root.keys(n) == range_keys(start, stop, step, n),
        bounded(root, h),
    ensures
        entry_keys(entries_from(root, h, 0, Seq::empty())).len() == ap_count(start, step, stop),
        forall|i: int| 0 <= i < entry_keys(entries_from(root, h, 0, Seq::empty())).len() ==> {
            let k = #[trigger] entry_keys(entries_from(root, h, 0, Seq::empty()))[i];
            &&& k.len() == n
            &&& be_value(k) == start + i * step
        },
{
    let ks = entry_keys(entries_from(root, h, 0, Seq::empty()));
    lemma_range_entries(root, n, start, stop, step, h);
    assert forall|i: int| 0 <= i < ks.len() implies #[trigger] be_value(ks[i]) == start + i * step by {
        lemma_increasing_terms(ks, start, stop, step, i as nat);
    }
    let cnt = ap_count(start, step, stop);
    lemma_ap_count_index(start, step, stop, ks.len());
    if ks.len() > 0 {
        lemma_ap_count_index(start, step, stop, (ks.len() - 1) as nat);
        assert(in_progression(be_value(ks[ks.len() - 1]), start, stop, step));
    }
    if ks.len() < cnt {
        let z = (start + ks.len() * step) as nat;
        vstd::arithmetic::div_mod::lemma_mod_multiples_vanish(ks.len() as int, start as int, step as int);
        assert(z == step * ks.len() + start) by (nonlinear_arith)
            requires
                z == start + ks.len() * step,
        ;
        assert(in_progression(z, start, stop, step));
        let j = choose|j: int| 0 <= j < ks.len() && #[trigger] be_value(ks[j]) == z;
        assert(be_value(ks[j]) == start + j * step);
        assert(j * step < ks.len() * step) by (nonlinear_arith)
            requires
                j < ks.len(),
                step >= 1,
        ;
    }
}

/// In an increasing run of keys whose numbers are exactly the progression from `start` by
/// `step` below `stop`, the `i`-th number is `start + i * step`.
proof fn lemma_increasing_terms(ks: Seq<Seq<u8>>, start: nat, stop: nat, step: nat, i: nat)
    requires
        step >= 1,
        start < stop,
        i < ks.len(),
        increasing(ks),
        forall|t: int| 0 <= t < ks.len() ==> in_progression(be_value(#[trigger] ks[t]), start, stop, step),
        forall|x: nat| #[trigger] in_progression(x, start, stop, step) ==>
            exists|j: int| 0 <= j < ks.len() && #[trigger] be_value(ks[j]) == x,
    ensures
        be_value(ks[i as int]) == start + i * step,
    decreases i,
{
    let y = be_value(ks[i as int]);
    let z = (start + i * step) as nat;
    if i == 0 {
        assert(in_progression(start, start, stop, step));
        let j = choose|j: int| 0 <= j < ks.len() && #[trigger] be_value(ks[j]) == start;
        if j > 0 {
            assert(be_value(ks[0]) < be_value(ks[j]));
        }
        assert(i * step == 0) by (nonlinear_arith)
            requires
                i == 0,
        ;
    } else {
        lemma_increasing_terms(ks, start, stop, step, (i - 1) as nat);
        let prev = (start + (i - 1) * step) as nat;
        assert(be_value(ks[i - 1]) == prev);
        assert(be_value(ks[i - 1]) < y);
        assert(prev == step * (i - 1) + start && z == prev + step) by (nonlinear_arith)
            requires
                z == start + i * step,
                prev == start + (i - 1) * step,
                i >= 1,
        ;
        vstd::arithmetic::div_mod::lemma_mod_multiples_vanish((i - 1) as int, start as int, step as int);
        assert(prev % step == start % step);
        if y < prev + step {
            lemma_same_class_close(y, prev, step);
        }
        vstd::arithmetic::div_mod::lemma_mod_add_multiples_vanish(prev as int, step as int);
        assert(z % step == start % step);
        assert(z < stop);
        assert(in_progression(z, start, stop, step));
        let j = choose|j: int| 0 <= j < ks.len() && #[trigger] be_value(ks[j]) == z;
        if j < i - 1 {
            assert(be_value(ks[j]) < be_value(ks[i - 1]));
        }
        if j > i {
            assert(be_value(ks[i as int]) < be_value(ks[j]));
        }
    }
}

} // verus!
