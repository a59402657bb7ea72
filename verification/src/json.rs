//! JSON renderings of the shape of a trie of dense nodes.
//!
//! Both renderings list the filled slots of a node in increasing byte order, each named by the
//! decimal digits of its byte.  The nested-object rendering maps each byte to the object of its
//! child node (`{}` when the slot holds no child); the hierarchy rendering, for tree-drawing
//! tools, gives a list of objects with a `"name"` and, when there is a child, its
//! `"children"`.

use vstd::prelude::*;
use crate::dense_byte_node::DenseByteNode;
use crate::trie_map::{bounded, BytesTrieMap};

verus! {

/// The decimal digits of `b`, as ASCII bytes.
pub open spec fn dec(b: u8) -> Seq<u8> {
    if b < 10 {
        seq![(48 + b) as u8]
    } else if b < 100 {
        seq![(48 + b / 10) as u8, (48 + b % 10) as u8]
    } else {
        seq![(48 + b / 100) as u8, (48 + (b / 10) % 10) as u8, (48 + b % 10) as u8]
    }
}

/// Appends the decimal digits of `b`.
fn push_dec(s: &mut Vec<u8>, b: u8)
    ensures
        final(s)@ == old(s)@ + dec(b),
{
    if b >= 100 {
        s.push(48 + b / 100);
    }
    if b >= 10 {
        s.push(48 + (b / 10) % 10);
    }
    s.push(48 + b % 10);
    assert(final(s)@ =~= old(s)@ + dec(b));
}

/// `"` followed by the digits of `b` and `"`.
pub open spec fn quoted(b: u8) -> Seq<u8> {
    seq![34u8] + dec(b) + seq![34u8]
}

/// The child of the filled slot `b` of `n`, if it has one.
pub open spec fn child_node<V>(n: DenseByteNode<V>, b: u8) -> Option<DenseByteNode<V>> {
    match n.slot(b) {
        Some(c) => match c.rec {
            Some(r) => Some(r.node()),
            None => None,
        },
        None => None,
    }
}

/// The nested-object rendering of `n`, whose children lie within `h` steps down:
/// `{"b1":<child>,"b2":<child>,...}` over its filled slots.
pub open spec fn json_of<V>(n: DenseByteNode<V>, h: nat) -> Seq<u8>
    decreases h, 258nat,
{
    seq![123u8] + json_items(n, h, 0, true) + seq![125u8]
}

/// The members of the nested-object rendering of `n` for the filled slots from byte `b` on,
/// `first` telling whether no member came before.
pub open spec fn json_items<V>(n: DenseByteNode<V>, h: nat, b: nat, first: bool) -> Seq<u8>
    decreases h, 257 - b,
{
    if b >= 256 {
        Seq::empty()
    } else if n.slot(b as u8) is Some {
        let sep: Seq<u8> = if first { Seq::empty() } else { seq![44u8] };
        let inner: Seq<u8> = match child_node(n, b as u8) {
            Some(c) => if h > 0 { json_of(c, (h - 1) as nat) } else { seq![123u8, 125u8] },
            None => seq![123u8, 125u8],
        };
        sep + quoted(b as u8) + seq![58u8] + inner + json_items(n, h, b + 1, false)
    } else {
        json_items(n, h, b + 1, first)
    }
}

/// The hierarchy rendering of `n`, whose children lie within `h` steps down:
/// `[{"name":"b1","children":<child>},{"name":"b2"},...]` over its filled slots.
pub open spec fn d3_of<V>(n: DenseByteNode<V>, h: nat) -> Seq<u8>
    decreases h, 258nat,
{
    seq![91u8] + d3_items(n, h, 0, true) + seq![93u8]
}

/// `{"name":"`.
pub open spec fn name_open() -> Seq<u8> {
    seq![123u8, 34u8, 110u8, 97u8, 109u8, 101u8, 34u8, 58u8, 34u8]
}

/// `","children":`.
pub open spec fn children_open() -> Seq<u8> {
    seq![34u8, 44u8, 34u8, 99u8, 104u8, 105u8, 108u8, 100u8, 114u8, 101u8, 110u8, 34u8, 58u8]
}

/// The elements of the hierarchy rendering of `n` for the filled slots from byte `b` on,
/// `first` telling whether no element came before.
pub open spec fn d3_items<V>(n: DenseByteNode<V>, h: nat, b: nat, first: bool) -> Seq<u8>
    decreases h, 257 - b,
{
    if b >= 256 {
        Seq::empty()
    } else if n.slot(b as u8) is Some {
        let sep: Seq<u8> = if first { Seq::empty() } else { seq![44u8] };
        let item: Seq<u8> = match child_node(n, b as u8) {
            Some(c) => if h > 0 {
                name_open() + dec(b as u8) + children_open() + d3_of(c, (h - 1) as nat) + seq![125u8]
            } else {
                name_open() + dec(b as u8) + seq![34u8, 125u8]
            },
            None => name_open() + dec(b as u8) + seq![34u8, 125u8],
        };
        sep + item + d3_items(n, h, b + 1, false)
    } else {
        d3_items(n, h, b + 1, first)
    }
}

/// Appends the bytes of `bytes`.
fn push_all(s: &mut Vec<u8>, bytes: &[u8])
    ensures
        final(s)@ == old(s)@ + bytes@,
{
    let mut i: usize = 0;
    while i < bytes.len()
        invariant
            i <= bytes@.len(),
            s@ == old(s)@ + bytes@.take(i as int),
        decreases bytes@.len() - i,
    {
        s.push(bytes[i]);
        i += 1;
        assert(s@ =~= old(s)@ + bytes@.take(i as int));
    }
    assert(bytes@.take(i as int) =~= bytes@);
}

/// Appends the nested-object rendering of `node`.
fn json_node<V>(node: &DenseByteNode<V>, Ghost(h): Ghost<nat>, s: &mut Vec<u8>)
    requires
        bounded(*node, h),
    ensures
        final(s)@ == old(s)@ + json_of(*node, h),
    decreases h,
{
    s.push(123u8);
    let mut first = true;
    let mut k: usize = 0;
    while k < 256
        invariant
            k <= 256,
            bounded(*node, h),
            s@ + json_items(*node, h, k as nat, first) + seq![125u8] == old(s)@ + json_of(*node, h),
        decreases 256 - k,
    {
        let ghost before = s@;
        let kb = k as u8;
        match node.get(kb) {
            Some(cf) => {
                if !first {
                    s.push(44u8);
                }
                s.push(34u8);
                push_dec(s, kb);
                s.push(34u8);
                s.push(58u8);
                match &cf.rec {
                    Some(r) => {
                        assert(child_node(*node, kb) == Some(r.node()));
                        json_node(r.as_dense(), Ghost((h - 1) as nat), s);
                    },
                    None => {
                        s.push(123u8);
                        s.push(125u8);
                    },
                }
                proof {
                    let sep: Seq<u8> = if first { Seq::empty() } else { seq![44u8] };
                    let inner: Seq<u8> = match child_node(*node, kb) {
                        Some(c) => if h > 0 { json_of(c, (h - 1) as nat) } else { seq![123u8, 125u8] },
                        None => seq![123u8, 125u8],
                    };
                    assert(s@ =~= before + (sep + quoted(kb) + seq![58u8] + inner));
                    assert(json_items(*node, h, k as nat, first)
                        == sep + quoted(kb) + seq![58u8] + inner + json_items(*node, h, k as nat + 1, false));
                    assert(s@ + json_items(*node, h, k as nat + 1, false) + seq![125u8]
                        =~= before + json_items(*node, h, k as nat, first) + seq![125u8]);
                }
                first = false;
            },
            None => {},
        }
        k += 1;
    }
    s.push(125u8);
    assert(s@ =~= old(s)@ + json_of(*node, h));
}

/// Appends the hierarchy rendering of `node`.
fn d3_node<V>(node: &DenseByteNode<V>, Ghost(h): Ghost<nat>, s: &mut Vec<u8>)
    requires
        bounded(*node, h),
    ensures
        final(s)@ == old(s)@ + d3_of(*node, h),
    decreases h,
{
    s.push(91u8);
    let mut first = true;
    let mut k: usize = 0;
    while k < 256
        invariant
            k <= 256,
            bounded(*node, h),
            s@ + d3_items(*node, h, k as nat, first) + seq![93u8] == old(s)@ + d3_of(*node, h),
        decreases 256 - k,
    {
        let ghost before = s@;
        let kb = k as u8;
        match node.get(kb) {
            Some(cf) => {
                if !first {
                    s.push(44u8);
                }
                let name = [123u8, 34u8, 110u8, 97u8, 109u8, 101u8, 34u8, 58u8, 34u8];
                assert(name@ =~= name_open());
                push_all(s, &name);
                push_dec(s, kb);
                match &cf.rec {
                    Some(r) => {
                        assert(child_node(*node, kb) == Some(r.node()));
                        let children = [34u8, 44u8, 34u8, 99u8, 104u8, 105u8, 108u8, 100u8, 114u8, 101u8, 110u8, 34u8, 58u8];
                        assert(children@ =~= children_open());
                        push_all(s, &children);
                        d3_node(r.as_dense(), Ghost((h - 1) as nat), s);
                        s.push(125u8);
                    },
                    None => {
                        s.push(34u8);
                        s.push(125u8);
                    },
                }
                proof {
                    let sep: Seq<u8> = if first { Seq::empty() } else { seq![44u8] };
                    let item: Seq<u8> = match child_node(*node, kb) {
                        Some(c) => if h > 0 {
                            name_open() + dec(kb) + children_open() + d3_of(c, (h - 1) as nat) + seq![125u8]
                        } else {
                            name_open() + dec(kb) + seq![34u8, 125u8]
                        },
                        None => name_open() + dec(kb) + seq![34u8, 125u8],
                    };
                    assert(s@ =~= before + (sep + item));
                    assert(d3_items(*node, h, k as nat, first) == sep + item + d3_items(*node, h, k as nat + 1, false));
                    assert(s@ + d3_items(*node, h, k as nat + 1, false) + seq![93u8]
                        =~= before + d3_items(*node, h, k as nat, first) + seq![93u8]);
                }
                first = false;
            },
            None => {},
        }
        k += 1;
    }
    s.push(93u8);
    assert(s@ =~= old(s)@ + d3_of(*node, h));
}

/// Appends the nested-object rendering of the trie of `map`:
/// `{"b":<child>,...}` over the filled slots of its root, in byte order, `{}` for a slot without
/// a child.
pub fn json_intern<V>(map: &BytesTrieMap<V>, s: &mut Vec<u8>)
    ensures
        exists|h: nat| bounded(map.root_node(), h) && final(s)@ == old(s)@ + json_of(map.root_node(), h),
{
    proof {
        use_type_invariant(map);
    }
    let ghost h = choose|h: nat| bounded(map.root_node(), h);
    json_node(map.root().as_dense(), Ghost(h), s);
}

/// Appends the hierarchy rendering of the trie of `map`:
/// `[{"name":"b","children":<child>},{"name":"c"},...]` over the filled slots of its root, in
/// byte order.
pub fn d3_json_intern<V>(map: &BytesTrieMap<V>, s: &mut Vec<u8>)
    ensures
        exists|h: nat| bounded(map.root_node(), h) && final(s)@ == old(s)@ + d3_of(map.root_node(), h),
{
    proof {
        use_type_invariant(map);
    }
    let ghost h = choose|h: nat| bounded(map.root_node(), h);
    d3_node(map.root().as_dense(), Ghost(h), s);
}

} // verus!
