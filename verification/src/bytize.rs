//! Keys made of the bytes of a `u64`, in little-endian order (the order in which a
//! little-endian machine stores them).

use vstd::prelude::*;
use crate::range_generator::pow256;

verus! {

/// The `n` little-endian bytes of `v`: byte `i` is `(v / 256^i) % 256`.
pub open spec fn le_bytes(v: nat, n: nat) -> Seq<u8>
    decreases n,
{
    if n == 0 {
        Seq::empty()
    } else {
        seq![(v % 256) as u8] + le_bytes(v / 256, (n - 1) as nat)
    }
}

/// The number whose little-endian bytes are `s`.
pub open spec fn le_value(s: Seq<u8>) -> nat
    decreases s.len(),
{
    if s.len() == 0 {
        0
    } else {
        (s[0] + 256 * le_value(s.drop_first())) as nat
    }
}

/// The number of bytes of `v` up to its highest nonzero byte, and at least one.
pub open spec fn byte_len(v: nat) -> nat
    decreases v,
{
    if v < 256 {
        1
    } else {
        1 + byte_len(v / 256)
    }
}

/// The key of `k`: its little-endian bytes up to the highest nonzero one, at least one byte.
pub open spec fn prefix_key_spec(k: u64) -> Seq<u8> {
    le_bytes(k as nat, byte_len(k as nat))
}

/// The number that a key stands for: the little-endian value of its first eight bytes.
pub open spec fn from_prefix_key_spec(k: Seq<u8>) -> nat {
    le_value(k.take(if k.len() < 8 { k.len() as int } else { 8 }))
}

/// Little-endian bytes spell back the number modulo the power of 256 they span.
pub proof fn lemma_le_roundtrip(v: nat, n: nat)
    ensures
        le_bytes(v, n).len() == n,
        le_value(le_bytes(v, n)) == v % pow256(n),
    decreases n,
{
    if n == 0 {
        assert(pow256(0) == 1);
    } else {
        lemma_le_roundtrip(v / 256, (n - 1) as nat);
        let s = le_bytes(v, n);
        assert(s.drop_first() =~= le_bytes(v / 256, (n - 1) as nat));
        crate::range_generator::lemma_pow256_mono(0, (n - 1) as nat);
        assert(pow256(0) == 1);
        vstd::arithmetic::div_mod::lemma_mod_breakdown(v as int, 256, pow256((n - 1) as nat) as int);
    }
}

/// A number lies below the power of 256 of its byte length.
pub proof fn lemma_byte_len_bound(v: nat)
    ensures
        v < pow256(byte_len(v)),
        byte_len(v) >= 1,
    decreases v,
{
    if v < 256 {
        reveal_with_fuel(pow256, 2);
    } else {
        lemma_byte_len_bound(v / 256);
        vstd::arithmetic::div_mod::lemma_fundamental_div_mod(v as int, 256);
        assert(v < 256 * pow256(byte_len(v / 256))) by (nonlinear_arith)
            requires
                v == 256 * (v / 256) + v % 256,
                v % 256 < 256,
                v / 256 < pow256(byte_len(v / 256)),
        ;
    }
}

/// A number below `256^n`, for `n >= 1`, takes at most `n` bytes.
pub proof fn lemma_byte_len_at_most(v: nat, n: nat)
    requires
        n >= 1,
        v < pow256(n),
    ensures
        byte_len(v) <= n,
    decreases v,
{
    if v >= 256 {
        if n == 1 {
            reveal_with_fuel(pow256, 2);
        } else {
            assert(v / 256 < pow256((n - 1) as nat)) by (nonlinear_arith)
                requires
                    v < 256 * pow256((n - 1) as nat),
            ;
            lemma_byte_len_at_most(v / 256, (n - 1) as nat);
        }
    }
}

/// The number below `256^n` of little-endian bytes `s`.
pub proof fn lemma_le_value_bound(s: Seq<u8>)
    ensures
        le_value(s) < pow256(s.len()),
    decreases s.len(),
{
    if s.len() > 0 {
        lemma_le_value_bound(s.drop_first());
        assert(s[0] + 256 * le_value(s.drop_first()) < 256 * pow256(s.drop_first().len())) by (nonlinear_arith)
            requires
                le_value(s.drop_first()) < pow256(s.drop_first().len()),
                s[0] < 256,
        ;
    }
}

/// The key of `k`: its little-endian bytes up to its highest nonzero byte, at least one byte.
pub fn prefix_key(k: &u64) -> (r: Vec<u8>)
    ensures
        r@ == prefix_key_spec(*k),
        1 <= r@.len() <= 8,
{
    let mut out: Vec<u8> = Vec::new();
    let mut x: u64 = *k;
    loop
        invariant_except_break
            out@ + le_bytes(x as nat, byte_len(x as nat)) == prefix_key_spec(*k),
        ensures
            out@ == prefix_key_spec(*k),
        decreases x,
    {
        let ghost before = out@;
        out.push((x % 256) as u8);
        let next = x / 256;
        if next == 0 {
            proof {
                assert(le_bytes((x / 256) as nat, 0) =~= Seq::<u8>::empty());
                assert(le_bytes(x as nat, 1) =~= seq![(x % 256) as u8]);
                assert(out@ =~= before + le_bytes(x as nat, byte_len(x as nat)));
            }
            break;
        }
        proof {
            assert(le_bytes(x as nat, byte_len(x as nat)) =~= seq![(x % 256) as u8] + le_bytes(next as nat, byte_len(next as nat)));
            assert(out@ + le_bytes(next as nat, byte_len(next as nat)) =~= before + le_bytes(x as nat, byte_len(x as nat)));
        }
        x = next;
    }
    proof {
        lemma_le_roundtrip(*k as nat, byte_len(*k as nat));
        reveal_with_fuel(pow256, 9);
        lemma_byte_len_at_most(*k as nat, 8);
        lemma_byte_len_bound(*k as nat);
    }
    out
}

/// The eight little-endian bytes of `k`.
fn le_bytes8(k: u64) -> (r: Vec<u8>)
    ensures
        r@ == le_bytes(k as nat, 8),
{
    let mut out: Vec<u8> = Vec::new();
    let mut x: u64 = k;
    let mut i: usize = 0;
    while i < 8
        invariant
            i <= 8,
            out@ + le_bytes(x as nat, (8 - i) as nat) == le_bytes(k as nat, 8),
        decreases 8 - i,
    {
        proof {
            assert(le_bytes(x as nat, (8 - i) as nat) =~= seq![(x % 256) as u8] + le_bytes((x / 256) as nat, (8 - i - 1) as nat));
        }
        out.push((x % 256) as u8);
        x = x / 256;
        i += 1;
    }
    assert(le_bytes(x as nat, 0) =~= Seq::<u8>::empty());
    assert(out@ =~= le_bytes(k as nat, 8));
    out
}

/// The little-endian bytes of `k` from its lowest nonzero byte on (its highest byte alone when
/// `k` is 0).
pub fn prefix_key_be(k: &u64) -> (r: Vec<u8>)
    ensures
        1 <= r@.len() <= 8,
        r@ == le_bytes(*k as nat, 8).skip(8 - r@.len()),
        forall|i: int| 0 <= i < 8 - r@.len() ==> #[trigger] le_bytes(*k as nat, 8)[i] == 0,
        r@.len() > 1 ==> r@[0] != 0,
{
    let all = le_bytes8(*k);
    proof {
        lemma_le_roundtrip(*k as nat, 8);
    }
    let mut z: usize = 0;
    while z < 7 && all[z] == 0
        invariant
            z <= 7,
            all@.len() == 8,
            forall|i: int| 0 <= i < z ==> #[trigger] all@[i] == 0,
        decreases 7 - z,
    {
        z += 1;
    }
    let mut out: Vec<u8> = Vec::new();
    let mut i: usize = z;
    while i < 8
        invariant
            z <= i <= 8,
            all@.len() == 8,
            out@ == all@.subrange(z as int, i as int),
        decreases 8 - i,
    {
        out.push(all[i]);
        i += 1;
        assert(out@ =~= all@.subrange(z as int, i as int));
    }
    assert(out@ =~= all@.skip(z as int));
    out
}

/// The number that the key `k` stands for: the little-endian value of its first eight bytes.
pub fn from_prefix_key(k: Vec<u8>) -> (r: u64)
    requires
        k@.len() >= 1,
    ensures
        r == from_prefix_key_spec(k@),
{
    let n: usize = if k.len() < 8 { k.len() } else { 8 };
    let ghost s = k@.take(n as int);
    let mut acc: u64 = 0;
    let mut j: usize = n;
    while j > 0
        invariant
            j <= n <= 8,
            n <= k@.len(),
            s == k@.take(n as int),
            acc == le_value(s.subrange(j as int, n as int)),
        decreases j,
    {
        let ghost t = s.subrange(j - 1, n as int);
        proof {
            assert(t.drop_first() =~= s.subrange(j as int, n as int));
            lemma_le_value_bound(t);
            lemma_le_value_bound(t.drop_first());
            crate::range_generator::lemma_pow256_mono(t.len(), 8);
            reveal_with_fuel(pow256, 9);
        }
        acc = k[j - 1] as u64 + 256 * acc;
        j -= 1;
    }
    assert(s.subrange(0, n as int) =~= s);
    acc
}

/// The number of the key of `k` is `k`: `from_prefix_key` undoes `prefix_key`.
pub proof fn law_prefix_key_roundtrip(k: u64)
    ensures
        from_prefix_key_spec(prefix_key_spec(k)) == k,
        prefix_key_spec(k).len() >= 1,
{
    lemma_le_roundtrip(k as nat, byte_len(k as nat));
    reveal_with_fuel(pow256, 9);
    lemma_byte_len_at_most(k as nat, 8);
    lemma_byte_len_bound(k as nat);
    let p = prefix_key_spec(k);
    assert(p.take(p.len() as int) =~= p);
    vstd::arithmetic::div_mod::lemma_small_mod(k as nat, pow256(byte_len(k as nat)));
}

} // verus!
