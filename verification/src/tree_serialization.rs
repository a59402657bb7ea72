//! The record of one node in the serialized form of a trie: the length of the node's jump path
//! (eight little-endian bytes), the jump path, the child mask (its four words, eight
//! little-endian bytes each), and the offset of the record of each child (eight little-endian
//! bytes each), in the order of the child bytes.

use vstd::prelude::*;
use crate::bytize::{le_bytes, le_value, lemma_le_roundtrip, lemma_le_value_bound};
use crate::range_generator::pow256;
use crate::utils::{mask_len, byte_mask_count_bits};

verus! {

/// The bytes of a sequence of words, eight little-endian bytes each.
pub open spec fn words_bytes(ws: Seq<u64>) -> Seq<u8>
    decreases ws.len(),
{
    if ws.len() == 0 {
        Seq::empty()
    } else {
        le_bytes(ws[0] as nat, 8) + words_bytes(ws.drop_first())
    }
}

/// The four words of a mask, in order.
pub open spec fn mask_words(mask: [u64; 4]) -> Seq<u64> {
    seq![mask[0], mask[1], mask[2], mask[3]]
}

/// The record of a node with jump path `jump`, child mask `mask` and child record offsets `ws`.
pub open spec fn node_record(jump: Seq<u8>, mask: [u64; 4], ws: Seq<u64>) -> Seq<u8> {
    le_bytes(jump.len(), 8) + jump + words_bytes(mask_words(mask)) + words_bytes(ws)
}

/// The `count` words stored from position `at` of `src`.
pub open spec fn read_words(src: Seq<u8>, at: int, count: nat) -> Seq<u64>
    decreases count,
{
    if count == 0 {
        Seq::empty()
    } else {
        seq![le_value(src.subrange(at, at + 8)) as u64] + read_words(src, at + 8, (count - 1) as nat)
    }
}

/// The mask made of four words.
pub open spec fn words_to_mask(ws: Seq<u64>) -> [u64; 4] {
    [ws[0], ws[1], ws[2], ws[3]]
}

/// The record that starts at position `n` of `src`: its jump path, child mask and child
/// offsets, when it lies within `src`.
pub open spec fn parse_record(src: Seq<u8>, n: int) -> Option<(Seq<u8>, [u64; 4], Seq<u64>)> {
    if !(0 <= n && n + 8 <= src.len()) {
        None
    } else {
        let jl = le_value(src.subrange(n, n + 8)) as int;
        if n + 8 + jl + 32 > src.len() {
            None
        } else {
            let mask = words_to_mask(read_words(src, n + 8 + jl, 4));
            let count = mask_len(mask);
            if n + 8 + jl + 32 + 8 * count > src.len() {
                None
            } else {
                Some((src.subrange(n + 8, n + 8 + jl), mask, read_words(src, n + 8 + jl + 32, count)))
            }
        }
    }
}

/// Appends the eight little-endian bytes of `w` to `target`.
fn push_word(target: &mut Vec<u8>, w: u64)
    ensures
        final(target)@ == old(target)@ + le_bytes(w as nat, 8),
{
    let mut x = w;
    let mut i: usize = 0;
    while i < 8
        invariant
            i <= 8,
            target@ + le_bytes(x as nat, (8 - i) as nat) == old(target)@ + le_bytes(w as nat, 8),
        decreases 8 - i,
    {
        proof {
            assert(le_bytes(x as nat, (8 - i) as nat) =~= seq![(x % 256) as u8] + le_bytes((x / 256) as nat, (8 - i - 1) as nat));
        }
        let ghost before = target@;
        target.push((x % 256) as u8);
        assert(target@ =~= before + seq![(x % 256) as u8]);
        x = x / 256;
        i += 1;
    }
    assert(le_bytes(x as nat, 0) =~= Seq::<u8>::empty());
    assert(target@ =~= old(target)@ + le_bytes(w as nat, 8));
}

/// Appends the words of `ws` to `target`.
fn push_words(target: &mut Vec<u8>, ws: &[u64])
    ensures
        final(target)@ == old(target)@ + words_bytes(ws@),
{
    let mut i: usize = 0;
    assert(ws@.skip(0) =~= ws@);
    while i < ws.len()
        invariant
            i <= ws@.len(),
            target@ + words_bytes(ws@.skip(i as int)) == old(target)@ + words_bytes(ws@),
        decreases ws@.len() - i,
    {
        proof {
            assert(ws@.skip(i as int).drop_first() =~= ws@.skip(i + 1));
        }
        let ghost before = target@;
        push_word(target, ws[i]);
        proof {
            assert(before + le_bytes(ws@[i as int] as nat, 8) + words_bytes(ws@.skip(i + 1))
                =~= before + words_bytes(ws@.skip(i as int)));
        }
        i += 1;
    }
    assert(ws@.skip(ws@.len() as int) =~= Seq::<u64>::empty());
    assert(target@ =~= old(target)@ + words_bytes(ws@));
}

/// The length of the bytes of `n` words.
proof fn lemma_words_len(ws: Seq<u64>)
    ensures
        words_bytes(ws).len() == 8 * ws.len(),
    decreases ws.len(),
{
    if ws.len() > 0 {
        lemma_words_len(ws.drop_first());
        lemma_le_roundtrip(ws[0] as nat, 8);
    }
}

/// Appends the record of a node to `target`; returns the record's length.
pub fn write_node_record(target: &mut Vec<u8>, jump: &[u8], mask: [u64; 4], ws: &[u64]) -> (l: usize)
    requires
        old(target)@.len() + 8 + jump@.len() + 32 + 8 * ws@.len() <= usize::MAX,
    ensures
        final(target)@ == old(target)@ + node_record(jump@, mask, ws@),
        l == node_record(jump@, mask, ws@).len(),
{
    let ghost start = target@;
    push_word(target, jump.len() as u64);
    let mut i: usize = 0;
    while i < jump.len()
        invariant
            i <= jump@.len(),
            target@ == start + le_bytes(jump@.len() as nat, 8) + jump@.take(i as int),
        decreases jump@.len() - i,
    {
        target.push(jump[i]);
        i += 1;
        assert(target@ =~= start + le_bytes(jump@.len() as nat, 8) + jump@.take(i as int));
    }
    assert(jump@.take(jump@.len() as int) =~= jump@);
    let mw = [mask[0], mask[1], mask[2], mask[3]];
    assert(mw@ =~= mask_words(mask));
    push_words(target, &mw);
    push_words(target, ws);
    proof {
        assert(target@ =~= start + node_record(jump@, mask, ws@));
        lemma_le_roundtrip(jump@.len() as nat, 8);
        lemma_words_len(mask_words(mask));
        lemma_words_len(ws@);
    }
    8 + jump.len() + 32 + 8 * ws.len()
}

/// The word stored at position `at` of `source`.
fn read_word(source: &[u8], at: usize) -> (r: u64)
    requires
        at + 8 <= source@.len(),
    ensures
        r == le_value(source@.subrange(at as int, at + 8)),
{
    let ghost s = source@.subrange(at as int, at + 8);
    let _slen = source.len();
    let mut acc: u64 = 0;
    let mut j: usize = 8;
    while j > 0
        invariant
            j <= 8,
            at + 8 <= source@.len(),
            source@.len() <= usize::MAX,
            s == source@.subrange(at as int, at + 8),
            acc == le_value(s.subrange(j as int, 8)),
        decreases j,
    {
        let ghost t = s.subrange(j - 1, 8);
        proof {
            assert(t.drop_first() =~= s.subrange(j as int, 8));
            lemma_le_value_bound(t);
            crate::range_generator::lemma_pow256_mono(t.len(), 8);
            reveal_with_fuel(pow256, 9);
        }
        acc = source[at + j - 1] as u64 + 256 * acc;
        j -= 1;
    }
    assert(s.subrange(0, 8) =~= s);
    acc
}

/// The `count` words stored from position `at` of `source`.
fn read_words_at(source: &[u8], at: usize, count: usize) -> (r: Vec<u64>)
    requires
        at + 8 * count <= source@.len(),
    ensures
        r@ == read_words(source@, at as int, count as nat),
{
    let mut out: Vec<u64> = Vec::new();
    let _slen = source.len();
    let mut i: usize = 0;
    while i < count
        invariant
            i <= count,
            at + 8 * count <= source@.len(),
            source@.len() <= usize::MAX,
            out@ + read_words(source@, at + 8 * i, (count - i) as nat) == read_words(source@, at as int, count as nat),
        decreases count - i,
    {
        let w = read_word(source, at + 8 * i);
        proof {
            assert(read_words(source@, at + 8 * i, (count - i) as nat)
                =~= seq![w] + read_words(source@, at + 8 * i + 8, (count - i - 1) as nat));
            assert(at + 8 * i + 8 == at + 8 * (i + 1));
        }
        let ghost before = out@;
        out.push(w);
        assert(out@ + read_words(source@, at + 8 * (i + 1), (count - i - 1) as nat)
            =~= before + read_words(source@, at + 8 * i, (count - i) as nat));
        i += 1;
    }
    assert(read_words(source@, at + 8 * count, 0) =~= Seq::<u64>::empty());
    assert(out@ =~= read_words(source@, at as int, count as nat));
    out
}

/// Reads the record that starts at position `n` of `source`: its jump path, child mask and one
/// child offset per byte of the mask; `None` when the record does not lie within `source`.
pub fn read_node_record(source: &[u8], n: usize) -> (r: Option<(Vec<u8>, [u64; 4], Vec<u64>)>)
    ensures
        r is Some <==> parse_record(source@, n as int) is Some,
        r matches Some(x) ==> parse_record(source@, n as int) == Some((x.0@, x.1, x.2@)),
{
    let len = source.len();
    if n > len || len - n < 8 {
        return None;
    }
    let jl64 = read_word(source, n);
    if jl64 as u128 > (len - n - 8) as u128 || len - n - 8 - (jl64 as usize) < 32 {
        return None;
    }
    let jl = jl64 as usize;
    let mask_at = n + 8 + jl;
    let mw = read_words_at(source, mask_at, 4);
    proof {
        lemma_read_words_len(source@, mask_at as int, 4);
    }
    let mask = [mw[0], mw[1], mw[2], mw[3]];
    assert(mask =~= words_to_mask(read_words(source@, mask_at as int, 4)));
    let count = byte_mask_count_bits(mask);
    proof {
        crate::utils::lemma_mask_len_bound(mask);
    }
    if len - mask_at - 32 < 8 * count {
        return None;
    }
    let mut jump: Vec<u8> = Vec::new();
    let mut i: usize = 0;
    while i < jl
        invariant
            i <= jl,
            n + 8 + jl <= len,
            len == source@.len(),
            jump@ == source@.subrange(n + 8, n + 8 + i),
        decreases jl - i,
    {
        jump.push(source[n + 8 + i]);
        i += 1;
        assert(jump@ =~= source@.subrange(n + 8, n + 8 + i));
    }
    let ws = read_words_at(source, mask_at + 32, count);
    Some((jump, mask, ws))
}

/// Reading back a written record gives what was written, wherever the record stands in the
/// bytes, when there is one child offset per byte of the mask.
pub proof fn law_record_roundtrip(prefix: Seq<u8>, jump: Seq<u8>, mask: [u64; 4], ws: Seq<u64>, suffix: Seq<u8>)
    requires
        ws.len() == mask_len(mask),
        jump.len() < pow256(8),
    ensures
        parse_record(prefix + node_record(jump, mask, ws) + suffix, prefix.len() as int) == Some((jump, mask, ws)),
{
    let src = prefix + node_record(jump, mask, ws) + suffix;
    let n = prefix.len() as int;
    let jl = jump.len() as int;
    lemma_le_roundtrip(jump.len(), 8);
    vstd::arithmetic::div_mod::lemma_small_mod(jump.len(), pow256(8));
    lemma_words_len(mask_words(mask));
    lemma_words_len(ws);
    assert(src.subrange(n, n + 8) =~= le_bytes(jump.len(), 8));
    assert(src.subrange(n + 8, n + 8 + jl) =~= jump);
    assert(src.subrange(n + 8 + jl, n + 8 + jl + 32) =~= words_bytes(mask_words(mask)));
    lemma_read_words(src, n + 8 + jl, mask_words(mask));
    assert(words_to_mask(mask_words(mask)) =~= mask);
    assert(src.subrange(n + 8 + jl + 32, n + 8 + jl + 32 + 8 * ws.len()) =~= words_bytes(ws));
    lemma_read_words(src, n + 8 + jl + 32, ws);
}

/// `read_words` reads `count` words.
proof fn lemma_read_words_len(src: Seq<u8>, at: int, count: nat)
    ensures
        read_words(src, at, count).len() == count,
    decreases count,
{
    if count > 0 {
        lemma_read_words_len(src, at + 8, (count - 1) as nat);
    }
}

/// Words read back from where their bytes stand are the words.
proof fn lemma_read_words(src: Seq<u8>, at: int, ws: Seq<u64>)
    requires
        0 <= at,
        at + 8 * ws.len() <= src.len(),
        src.subrange(at, at + 8 * ws.len()) == words_bytes(ws),
    ensures
        read_words(src, at, ws.len()) == ws,
    decreases ws.len(),
{
    lemma_words_len(ws);
    if ws.len() > 0 {
        let rest = ws.drop_first();
        lemma_words_len(rest);
        lemma_le_roundtrip(ws[0] as nat, 8);
        reveal_with_fuel(pow256, 9);
        assert(src.subrange(at, at + 8) =~= src.subrange(at, at + 8 * ws.len()).subrange(0, 8));
        assert(words_bytes(ws).subrange(0, 8) =~= le_bytes(ws[0] as nat, 8));
        assert(src.subrange(at + 8, at + 8 + 8 * rest.len()) =~= words_bytes(ws).subrange(8, 8 * ws.len() as int));
        assert(words_bytes(ws).subrange(8, 8 * ws.len() as int) =~= words_bytes(rest));
        lemma_read_words(src, at + 8, rest);
        vstd::arithmetic::div_mod::lemma_small_mod(ws[0] as nat, pow256(8));
        assert(read_words(src, at, ws.len()) =~= seq![ws[0]] + rest);
    }
}

} // verus!
