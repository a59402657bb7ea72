//! The commands that draw the tries of up to three maps.
//!
//! The tries are given as one graph of their nodes, each node named by an id and listing its
//! filled slots: the byte, the index of the child node, and the id of the value.  A node that
//! several parents or maps share appears once.  Children come after their parents in the list
//! of nodes, so the graph has no cycle.
//!
//! The physical drawing shows every node that a map reaches, coloured by the maps that reach it,
//! with an edge for each child and a value for each value.  The logical drawing shows only the
//! points where the trie branches, where a value sits on a path that goes on, or where a node is
//! shared; the edges between such points are labelled with all the bytes on the way.

use vstd::prelude::*;
use crate::viz::DrawConfig;

verus! {

/// A filled slot of a node: its byte, the index of its child in the graph, and the id of its
/// value.
pub struct GraphSlot {
    pub byte: u8,
    pub child: Option<usize>,
    pub value: Option<u64>,
}

/// A node of the graph: its id and its filled slots.
pub struct GraphNode {
    pub id: u64,
    pub slots: Vec<GraphSlot>,
}

/// The nodes of the tries of some maps, and the index of the root of each map.
pub struct NodeGraph {
    pub nodes: Vec<GraphNode>,
    pub roots: Vec<usize>,
}

/// A drawing command.
#[derive(Debug, PartialEq, Eq)]
pub enum DrawCmd {
    /// Map number `.0`, whose root node has id `.1`.
    MapRoot(usize, u64),
    /// The node with id `.0`, reached by the maps whose bits are set in `.1`.
    Node(u64, u64),
    /// An edge from node `.0` to node `.1`, labelled with the bytes `.2`.
    Edge(u64, u64, Vec<u8>),
    /// The value with id `.1` under node `.0`, at the bytes `.2`.
    Value(u64, u64, Vec<u8>),
}

/// A drawing command, with its bytes as a sequence.
pub enum CmdView {
    MapRoot(usize, u64),
    Node(u64, u64),
    Edge(u64, u64, Seq<u8>),
    Value(u64, u64, Seq<u8>),
}

/// The view of a command.
pub open spec fn cmd_view(c: DrawCmd) -> CmdView {
    match c {
        DrawCmd::MapRoot(i, id) => CmdView::MapRoot(i, id),
        DrawCmd::Node(id, m) => CmdView::Node(id, m),
        DrawCmd::Edge(a, b, p) => CmdView::Edge(a, b, p@),
        DrawCmd::Value(a, v, p) => CmdView::Value(a, v, p@),
    }
}

/// The slots of node `j`.
pub open spec fn slots_of(g: NodeGraph, j: int) -> Seq<GraphSlot> {
    g.nodes@[j].slots@
}

/// The graph names at most three maps, its roots and children are nodes of it, and every child
/// comes after its parent.
pub open spec fn graph_wf(g: NodeGraph) -> bool {
    &&& g.roots@.len() <= 3
    &&& forall|i: int| 0 <= i < g.roots@.len() ==> #[trigger] g.roots@[i] < g.nodes@.len()
    &&& forall|j: int, k: int| 0 <= j < g.nodes@.len() && 0 <= k < slots_of(g, j).len()
        ==> ((#[trigger] slots_of(g, j)[k]).child matches Some(c) ==> j < c < g.nodes@.len())
}

/// Node `p` has a slot whose child is node `c`.
pub open spec fn has_child(g: NodeGraph, p: int, c: int) -> bool {
    exists|k: int| 0 <= k < slots_of(g, p).len() && (#[trigger] slots_of(g, p)[k]).child == Some(c as usize)
}

/// Node `j` is reached from node `r` by following children.
pub open spec fn reaches(g: NodeGraph, r: int, j: int) -> bool
    decreases j,
{
    j == r || (j > 0 && exists|p: int| 0 <= p < j && #[trigger] has_child(g, p, j) && reaches(g, r, p))
}

/// Map `i` reaches node `j`.
pub open spec fn map_reaches(g: NodeGraph, i: int, j: int) -> bool {
    0 <= i < g.roots@.len() && reaches(g, g.roots@[i] as int, j)
}

/// The bits of the maps that reach node `j`: bit `i` for map `i`.
pub open spec fn reach_mask(g: NodeGraph, j: int) -> u64 {
    ((if map_reaches(g, 0, j) { 1int } else { 0int }) + (if map_reaches(g, 1, j) { 2int } else { 0int }) + (
    if map_reaches(g, 2, j) { 4int } else { 0int })) as u64
}

/// Some map reaches node `j`.
pub open spec fn reachable(g: NodeGraph, j: int) -> bool {
    exists|i: int| #[trigger] map_reaches(g, i, j)
}

/// Node `j` is the root of some map.
pub open spec fn is_root(g: NodeGraph, j: int) -> bool {
    exists|i: int| 0 <= i < g.roots@.len() && #[trigger] g.roots@[i] == j
}

/// The number of slots among `slots[..k]` whose child is node `c`.
pub open spec fn slots_to(slots: Seq<GraphSlot>, c: int, k: int) -> nat
    decreases k,
{
    if k <= 0 {
        0
    } else {
        slots_to(slots, c, k - 1) + if slots[k - 1].child == Some(c as usize) { 1nat } else { 0nat }
    }
}

/// The number of slots of nodes `..j` whose child is node `c`.
pub open spec fn edges_to(g: NodeGraph, c: int, j: int) -> nat
    decreases j,
{
    if j <= 0 {
        0
    } else {
        edges_to(g, c, j - 1) + slots_to(slots_of(g, j - 1), c, slots_of(g, j - 1).len() as int)
    }
}

/// Some slot whose child is node `c` also holds a value.
pub open spec fn value_above(g: NodeGraph, c: int) -> bool {
    exists|p: int, k: int|
        0 <= p < g.nodes@.len() && 0 <= k < slots_of(g, p).len() && (#[trigger] slots_of(g, p)[k]).child == Some(
            c as usize,
        ) && slots_of(g, p)[k].value is Some
}

/// Node `c` is a point of the logical drawing: a root, a node with two or more parents, a
/// branch, or a node with one child under a value that is drawn.
pub open spec fn logical_point(g: NodeGraph, c: int, hide_values: bool) -> bool {
    ||| is_root(g, c)
    ||| edges_to(g, c, g.nodes@.len() as int) >= 2
    ||| slots_of(g, c).len() >= 2
    ||| (slots_of(g, c).len() == 1 && value_above(g, c) && !hide_values)
}

/// The value command of a slot, if its value is drawn.
pub open spec fn value_cmd(from: u64, s: GraphSlot, path: Seq<u8>, hide_values: bool) -> Seq<CmdView> {
    match s.value {
        Some(v) => if hide_values { Seq::empty() } else { seq![CmdView::Value(from, v, path)] },
        None => Seq::empty(),
    }
}

/// The physical commands of slots `k..` of node `j`: an edge to each child, and each value.
pub open spec fn physical_slots(g: NodeGraph, j: int, k: int, hide_values: bool) -> Seq<CmdView>
    decreases slots_of(g, j).len() - k,
{
    if k < 0 || k >= slots_of(g, j).len() {
        Seq::empty()
    } else {
        let s = slots_of(g, j)[k];
        let id = g.nodes@[j].id;
        let edge: Seq<CmdView> = match s.child {
            Some(c) => seq![CmdView::Edge(id, g.nodes@[c as int].id, seq![s.byte])],
            None => Seq::empty(),
        };
        edge + value_cmd(id, s, seq![s.byte], hide_values) + physical_slots(g, j, k + 1, hide_values)
    }
}

/// The logical commands of the path that leaves the point `from` through slot `k` of node `j`,
/// after the bytes `pre`: the value on the way, and the edge to the next point, following nodes
/// that are not points.
pub open spec fn logical_walk(g: NodeGraph, from: u64, pre: Seq<u8>, j: int, k: int, hide_values: bool) -> Seq<CmdView>
    decreases g.nodes@.len() - j,
{
    if !(0 <= k < slots_of(g, j).len()) {
        Seq::empty()
    } else {
        let s = slots_of(g, j)[k];
        let path = pre.push(s.byte);
        let on: Seq<CmdView> = match s.child {
            Some(c) => if !(j < c < g.nodes@.len()) {
                Seq::empty()
            } else if logical_point(g, c as int, hide_values) {
                seq![CmdView::Edge(from, g.nodes@[c as int].id, path)]
            } else {
                logical_walk(g, from, path, c as int, 0, hide_values)
            },
            None => Seq::empty(),
        };
        value_cmd(from, s, path, hide_values) + on
    }
}

/// The logical commands of the paths that leave point `j` through its slots `k..`.
pub open spec fn logical_slots(g: NodeGraph, j: int, k: int, hide_values: bool) -> Seq<CmdView>
    decreases slots_of(g, j).len() - k,
{
    if k < 0 || k >= slots_of(g, j).len() {
        Seq::empty()
    } else {
        logical_walk(g, g.nodes@[j].id, Seq::empty(), j, k, hide_values) + logical_slots(g, j, k + 1, hide_values)
    }
}

/// The commands of node `j`: in the physical drawing, every node that a map reaches, with its
/// slots; in the logical drawing, every reached point, drawn as a node unless it is a root
/// (a map is drawn as its root), with the paths that leave it.
pub open spec fn node_cmds(g: NodeGraph, j: int, dc: DrawConfig) -> Seq<CmdView> {
    if !reachable(g, j) {
        Seq::empty()
    } else if !dc.logical {
        seq![CmdView::Node(g.nodes@[j].id, reach_mask(g, j))] + physical_slots(g, j, 0, dc.hide_value_paths)
    } else if logical_point(g, j, dc.hide_value_paths) {
        (if is_root(g, j) {
            Seq::empty()
        } else {
            seq![CmdView::Node(g.nodes@[j].id, reach_mask(g, j))]
        }) + logical_slots(g, j, 0, dc.hide_value_paths)
    } else {
        Seq::empty()
    }
}

/// The commands of nodes `j..`.
pub open spec fn nodes_cmds(g: NodeGraph, j: int, dc: DrawConfig) -> Seq<CmdView>
    decreases g.nodes@.len() - j,
{
    if j < 0 || j >= g.nodes@.len() {
        Seq::empty()
    } else {
        node_cmds(g, j, dc) + nodes_cmds(g, j + 1, dc)
    }
}

/// The map commands of maps `i..`.
pub open spec fn map_cmds(g: NodeGraph, i: int) -> Seq<CmdView>
    decreases g.roots@.len() - i,
{
    if i < 0 || i >= g.roots@.len() {
        Seq::empty()
    } else {
        seq![CmdView::MapRoot(i as usize, g.nodes@[g.roots@[i] as int].id)] + map_cmds(g, i + 1)
    }
}

/// All commands of the drawing: one per map first, then those of the nodes in order.
pub open spec fn drawing(g: NodeGraph, dc: DrawConfig) -> Seq<CmdView> {
    map_cmds(g, 0) + nodes_cmds(g, 0, dc)
}

/// The views of a list of commands.
pub open spec fn cmds_view(v: Seq<DrawCmd>) -> Seq<CmdView> {
    v.map_values(|c: DrawCmd| cmd_view(c))
}

proof fn lemma_cmds_push(v: Seq<DrawCmd>, c: DrawCmd)
    ensures
        cmds_view(v.push(c)) == cmds_view(v).push(cmd_view(c)),
{
    assert(cmds_view(v.push(c)) =~= cmds_view(v).push(cmd_view(c)));
}

/// Node `c` is `r`, or a child of a node before `j` (and before `c`) that `r` reaches.
pub open spec fn reached_before(g: NodeGraph, r: int, c: int, j: int) -> bool {
    c == r || (c > 0 && exists|p: int| 0 <= p < j && p < c && #[trigger] has_child(g, p, c) && reaches(g, r, p))
}

/// The nodes that map `i` reaches.
fn reach_of_map(g: &NodeGraph, i: usize) -> (r: Vec<bool>)
    requires
        graph_wf(*g),
        i < g.roots@.len(),
    ensures
        r@.len() == g.nodes@.len(),
        forall|j: int| 0 <= j < g.nodes@.len() ==> #[trigger] r@[j] == map_reaches(*g, i as int, j),
{
    let n = g.nodes.len();
    let root = g.roots[i];
    let ghost rt = root as int;
    let mut reached: Vec<bool> = Vec::new();
    let mut t: usize = 0;
    while t < n
        invariant
            t <= n,
            n == g.nodes@.len(),
            reached@.len() == t,
            rt == root,
            forall|c: int| 0 <= c < t ==> #[trigger] reached@[c] == (c == rt),
        decreases n - t,
    {
        reached.push(t == root);
        t += 1;
    }
    let mut j: usize = 0;
    while j < n
        invariant
            graph_wf(*g),
            n == g.nodes@.len(),
            j <= n,
            rt == g.roots@[i as int],
            i < g.roots@.len(),
            reached@.len() == n,
            forall|c: int| 0 <= c < n ==> #[trigger] reached@[c] == reached_before(*g, rt, c, j as int),
        decreases n - j,
    {
        assert(reached_before(*g, rt, j as int, j as int) == reaches(*g, rt, j as int));
        if reached[j] {
            let len = g.nodes[j].slots.len();
            let mut k: usize = 0;
            while k < len
                invariant
                    graph_wf(*g),
                    n == g.nodes@.len(),
                    j < n,
                    k <= len,
                    len == slots_of(*g, j as int).len(),
                    reached@.len() == n,
                    reaches(*g, rt, j as int),
                    forall|c: int| 0 <= c < n ==> #[trigger] reached@[c] == (reached_before(*g, rt, c, j as int)
                        || exists|kk: int| 0 <= kk < k && (#[trigger] slots_of(*g, j as int)[kk]).child == Some(c as usize)),
                decreases len - k,
            {
                match g.nodes[j].slots[k].child {
                    Some(c) => {
                        proof {
                            assert(slots_of(*g, j as int)[k as int].child == Some(c));
                        }
                        reached.set(c, true);
                    },
                    None => {},
                }
                proof {
                    assert forall|c: int| 0 <= c < n implies #[trigger] reached@[c] == (reached_before(*g, rt, c, j as int)
                        || exists|kk: int| 0 <= kk < k + 1 && (#[trigger] slots_of(*g, j as int)[kk]).child == Some(c as usize)) by {
                        if slots_of(*g, j as int)[k as int].child == Some(c as usize) {
                            assert(exists|kk: int| 0 <= kk < k + 1 && (#[trigger] slots_of(*g, j as int)[kk]).child == Some(c as usize));
                        }
                        if exists|kk: int| 0 <= kk < k + 1 && (#[trigger] slots_of(*g, j as int)[kk]).child == Some(c as usize) {
                            let kk = choose|kk: int| 0 <= kk < k + 1 && (#[trigger] slots_of(*g, j as int)[kk]).child == Some(c as usize);
                            if kk < k {
                                assert(exists|kk: int| 0 <= kk < k && (#[trigger] slots_of(*g, j as int)[kk]).child == Some(c as usize));
                            }
                        }
                    }
                }
                k += 1;
            }
            proof {
                assert forall|c: int| 0 <= c < n implies #[trigger] reached@[c] == reached_before(*g, rt, c, j + 1) by {
                    if exists|kk: int| 0 <= kk < len && (#[trigger] slots_of(*g, j as int)[kk]).child == Some(c as usize) {
                        let kk = choose|kk: int| 0 <= kk < len && (#[trigger] slots_of(*g, j as int)[kk]).child == Some(c as usize);
                        assert(j < c);
                        assert(has_child(*g, j as int, c));
                    }
                    if reached_before(*g, rt, c, j + 1) && !reached_before(*g, rt, c, j as int) {
                        let p = choose|p: int| 0 <= p < j + 1 && p < c && #[trigger] has_child(*g, p, c) && reaches(*g, rt, p);
                        assert(p == j);
                        let kk = choose|kk: int| 0 <= kk < slots_of(*g, p).len() && (#[trigger] slots_of(*g, p)[kk]).child == Some(c as usize);
                        assert(exists|kk: int| 0 <= kk < len && (#[trigger] slots_of(*g, j as int)[kk]).child == Some(c as usize));
                    }
                }
            }
        } else {
            proof {
                assert forall|c: int| 0 <= c < n implies #[trigger] reached@[c] == reached_before(*g, rt, c, j + 1) by {
                    if reached_before(*g, rt, c, j + 1) && !reached_before(*g, rt, c, j as int) {
                        let p = choose|p: int| 0 <= p < j + 1 && p < c && #[trigger] has_child(*g, p, c) && reaches(*g, rt, p);
                        assert(p == j);
                    }
                }
            }
        }
        j += 1;
    }
    proof {
        assert forall|c: int| 0 <= c < n implies #[trigger] reached@[c] == map_reaches(*g, i as int, c) by {
            assert(reached_before(*g, rt, c, n as int) == reaches(*g, rt, c));
        }
    }
    reached
}

/// `n` times `false`.
fn falses(n: usize) -> (r: Vec<bool>)
    ensures
        r@.len() == n,
        forall|j: int| 0 <= j < n ==> !#[trigger] r@[j],
{
    let mut r: Vec<bool> = Vec::new();
    let mut t: usize = 0;
    while t < n
        invariant
            t <= n,
            r@.len() == t,
            forall|j: int| 0 <= j < t ==> !#[trigger] r@[j],
        decreases n - t,
    {
        r.push(false);
        t += 1;
    }
    r
}

/// Some slot of a node before `j`, or of node `j` before slot `k`, has child `c` and a value.
pub open spec fn value_above_upto(g: NodeGraph, c: int, j: int, k: int) -> bool {
    exists|p: int, kk: int|
        0 <= p < g.nodes@.len() && 0 <= kk < slots_of(g, p).len() && (p < j || (p == j && kk < k))
            && (#[trigger] slots_of(g, p)[kk]).child == Some(c as usize) && slots_of(g, p)[kk].value is Some
}

/// For each node: how many slots have it as child (counting up to 2), and whether one of them
/// holds a value.
fn parent_counts(g: &NodeGraph) -> (r: (Vec<u8>, Vec<bool>))
    requires
        graph_wf(*g),
    ensures
        r.0@.len() == g.nodes@.len(),
        r.1@.len() == g.nodes@.len(),
        forall|c: int| 0 <= c < g.nodes@.len() ==> (#[trigger] r.0@[c] >= 2) == (edges_to(*g, c, g.nodes@.len() as int) >= 2),
        forall|c: int| 0 <= c < g.nodes@.len() ==> #[trigger] r.1@[c] == value_above(*g, c),
{
    let n = g.nodes.len();
    let mut cnt: Vec<u8> = Vec::new();
    let mut vab: Vec<bool> = Vec::new();
    let mut t: usize = 0;
    while t < n
        invariant
            t <= n,
            cnt@.len() == t,
            vab@.len() == t,
            forall|c: int| 0 <= c < t ==> #[trigger] cnt@[c] == 0,
            forall|c: int| 0 <= c < t ==> !#[trigger] vab@[c],
        decreases n - t,
    {
        cnt.push(0);
        vab.push(false);
        t += 1;
    }
    proof {
        assert forall|c: int| 0 <= c < n implies !#[trigger] value_above_upto(*g, c, 0, 0) by {
            if value_above_upto(*g, c, 0, 0) {
                let (p, kk) = choose|p: int, kk: int|
                    0 <= p < g.nodes@.len() && 0 <= kk < slots_of(*g, p).len() && (p < 0 || (p == 0 && kk < 0))
                        && (#[trigger] slots_of(*g, p)[kk]).child == Some(c as usize) && slots_of(*g, p)[kk].value is Some;
            }
        }
    }
    let mut j: usize = 0;
    while j < n
        invariant
            graph_wf(*g),
            n == g.nodes@.len(),
            j <= n,
            cnt@.len() == n,
            vab@.len() == n,
            forall|c: int| 0 <= c < n ==> #[trigger] cnt@[c] as int == if edges_to(*g, c, j as int) >= 2 { 2 } else { edges_to(*g, c, j as int) as int },
            forall|c: int| 0 <= c < n ==> #[trigger] vab@[c] == value_above_upto(*g, c, j as int, 0),
        decreases n - j,
    {
        let len = g.nodes[j].slots.len();
        let mut k: usize = 0;
        while k < len
            invariant
                graph_wf(*g),
                n == g.nodes@.len(),
                j < n,
                k <= len,
                len == slots_of(*g, j as int).len(),
                cnt@.len() == n,
                vab@.len() == n,
                forall|c: int| 0 <= c < n ==> #[trigger] cnt@[c] as int == {
                    let e = edges_to(*g, c, j as int) + slots_to(slots_of(*g, j as int), c, k as int);
                    if e >= 2 { 2 } else { e as int }
                },
                forall|c: int| 0 <= c < n ==> #[trigger] vab@[c] == value_above_upto(*g, c, j as int, k as int),
            decreases len - k,
        {
            let ghost before_v = vab@;
            match g.nodes[j].slots[k].child {
                Some(c) => {
                    proof {
                        assert(slots_of(*g, j as int)[k as int].child == Some(c));
                    }
                    let x = cnt[c];
                    if x < 2 {
                        cnt.set(c, x + 1);
                    }
                    if g.nodes[j].slots[k].value.is_some() {
                        vab.set(c, true);
                    }
                },
                None => {},
            }
            proof {
                assert forall|c: int| 0 <= c < n implies #[trigger] vab@[c] == value_above_upto(*g, c, j as int, k + 1) by {
                    let sk = slots_of(*g, j as int)[k as int];
                    if sk.child == Some(c as usize) && sk.value is Some {
                        assert(value_above_upto(*g, c, j as int, k + 1)) by {
                            assert(slots_of(*g, j as int)[k as int].child == Some(c as usize));
                        }
                    }
                    if value_above_upto(*g, c, j as int, k + 1) && !value_above_upto(*g, c, j as int, k as int) {
                        let (p, kk) = choose|p: int, kk: int|
                            0 <= p < g.nodes@.len() && 0 <= kk < slots_of(*g, p).len() && (p < j || (p == j && kk < k + 1))
                                && (#[trigger] slots_of(*g, p)[kk]).child == Some(c as usize) && slots_of(*g, p)[kk].value is Some;
                        assert(p == j && kk == k);
                    }
                }
            }
            k += 1;
        }
        proof {
            assert forall|c: int| 0 <= c < n implies #[trigger] vab@[c] == value_above_upto(*g, c, j + 1, 0) by {
                if value_above_upto(*g, c, j as int, len as int) {
                    let (p, kk) = choose|p: int, kk: int|
                        0 <= p < g.nodes@.len() && 0 <= kk < slots_of(*g, p).len() && (p < j || (p == j && kk < len))
                            && (#[trigger] slots_of(*g, p)[kk]).child == Some(c as usize) && slots_of(*g, p)[kk].value is Some;
                    assert(value_above_upto(*g, c, j + 1, 0));
                }
                if value_above_upto(*g, c, j + 1, 0) {
                    let (p, kk) = choose|p: int, kk: int|
                        0 <= p < g.nodes@.len() && 0 <= kk < slots_of(*g, p).len() && (p < j + 1 || (p == j + 1 && kk < 0))
                            && (#[trigger] slots_of(*g, p)[kk]).child == Some(c as usize) && slots_of(*g, p)[kk].value is Some;
                    assert(value_above_upto(*g, c, j as int, len as int));
                }
            }
            assert forall|c: int| 0 <= c < n implies #[trigger] cnt@[c] as int == if edges_to(*g, c, j + 1) >= 2 { 2 } else { edges_to(*g, c, j + 1) as int } by {
                assert(edges_to(*g, c, j + 1) == edges_to(*g, c, j as int) + slots_to(slots_of(*g, j as int), c, len as int));
            }
        }
        j += 1;
    }
    proof {
        assert forall|c: int| 0 <= c < n implies #[trigger] vab@[c] == value_above(*g, c) by {
            if value_above(*g, c) {
                let (p, kk) = choose|p: int, kk: int|
                    0 <= p < g.nodes@.len() && 0 <= kk < slots_of(*g, p).len()
                        && (#[trigger] slots_of(*g, p)[kk]).child == Some(c as usize) && slots_of(*g, p)[kk].value is Some;
                assert(value_above_upto(*g, c, n as int, 0));
            }
        }
    }
    (cnt, vab)
}

/// Whether each node is the root of some map.
fn root_flags(g: &NodeGraph) -> (r: Vec<bool>)
    requires
        graph_wf(*g),
    ensures
        r@.len() == g.nodes@.len(),
        forall|c: int| 0 <= c < g.nodes@.len() ==> #[trigger] r@[c] == is_root(*g, c),
{
    let n = g.nodes.len();
    let mut r = falses(n);
    let mut i: usize = 0;
    while i < g.roots.len()
        invariant
            graph_wf(*g),
            n == g.nodes@.len(),
            i <= g.roots@.len(),
            r@.len() == n,
            forall|c: int| 0 <= c < n ==> #[trigger] r@[c] == exists|ii: int| 0 <= ii < i && #[trigger] g.roots@[ii] == c,
        decreases g.roots@.len() - i,
    {
        let root = g.roots[i];
        r.set(root, true);
        proof {
            assert forall|c: int| 0 <= c < n implies #[trigger] r@[c] == exists|ii: int| 0 <= ii < i + 1 && #[trigger] g.roots@[ii] == c by {
                if c == root as int {
                    assert(g.roots@[i as int] == c);
                } else if exists|ii: int| 0 <= ii < i + 1 && #[trigger] g.roots@[ii] == c {
                    let ii = choose|ii: int| 0 <= ii < i + 1 && #[trigger] g.roots@[ii] == c;
                    assert(ii < i);
                }
            }
        }
        i += 1;
    }
    r
}

/// Whether the graph is well formed: at most three maps, roots and children among its nodes,
/// and every child after its parent.
pub fn check_graph(g: &NodeGraph) -> (r: bool)
    ensures
        r == graph_wf(*g),
{
    let n = g.nodes.len();
    if g.roots.len() > 3 {
        return false;
    }
    let mut i: usize = 0;
    while i < g.roots.len()
        invariant
            n == g.nodes@.len(),
            i <= g.roots@.len(),
            forall|ii: int| 0 <= ii < i ==> #[trigger] g.roots@[ii] < n,
        decreases g.roots@.len() - i,
    {
        if g.roots[i] >= n {
            return false;
        }
        i += 1;
    }
    let mut j: usize = 0;
    while j < n
        invariant
            n == g.nodes@.len(),
            j <= n,
            forall|jj: int, k: int| 0 <= jj < j && 0 <= k < slots_of(*g, jj).len()
                ==> ((#[trigger] slots_of(*g, jj)[k]).child matches Some(c) ==> jj < c < n),
        decreases n - j,
    {
        let len = g.nodes[j].slots.len();
        let mut k: usize = 0;
        while k < len
            invariant
                n == g.nodes@.len(),
                j < n,
                k <= len,
                len == slots_of(*g, j as int).len(),
                forall|jj: int, kk: int| 0 <= jj < j && 0 <= kk < slots_of(*g, jj).len()
                    ==> ((#[trigger] slots_of(*g, jj)[kk]).child matches Some(c) ==> jj < c < n),
                forall|kk: int| 0 <= kk < k ==> ((#[trigger] slots_of(*g, j as int)[kk]).child matches Some(c) ==> j < c < n),
            decreases len - k,
        {
            match g.nodes[j].slots[k].child {
                Some(c) => {
                    if c <= j || c >= n {
                        assert(slots_of(*g, j as int)[k as int].child == Some(c));
                        return false;
                    }
                },
                None => {},
            }
            k += 1;
        }
        j += 1;
    }
    true
}

/// A copy of `p`.
fn copy_path(p: &Vec<u8>) -> (r: Vec<u8>)
    ensures
        r@ == p@,
{
    let mut r: Vec<u8> = Vec::new();
    let mut t: usize = 0;
    while t < p.len()
        invariant
            t <= p@.len(),
            r@ == p@.take(t as int),
        decreases p@.len() - t,
    {
        r.push(p[t]);
        t += 1;
        assert(r@ =~= p@.take(t as int));
    }
    assert(p@.take(t as int) =~= p@);
    r
}

/// Appends the value command of slot `s` under node `from` at `path`, unless values are hidden.
fn push_value(out: &mut Vec<DrawCmd>, from: u64, s: &GraphSlot, path: &Vec<u8>, hide: bool)
    ensures
        cmds_view(final(out)@) == cmds_view(old(out)@) + value_cmd(from, *s, path@, hide),
{
    match s.value {
        Some(v) => {
            if !hide {
                let ghost o = out@;
                out.push(DrawCmd::Value(from, v, copy_path(path)));
                proof {
                    lemma_cmds_push(o, out@.last());
                    assert(out@ =~= o.push(out@.last()));
                }
            } else {
                assert(cmds_view(out@) =~= cmds_view(old(out)@) + Seq::<CmdView>::empty());
            }
        },
        None => {
            assert(cmds_view(out@) =~= cmds_view(old(out)@) + Seq::<CmdView>::empty());
        },
    }
}

/// Appends the physical commands of the slots of node `j`.
fn push_physical(g: &NodeGraph, j: usize, hide: bool, out: &mut Vec<DrawCmd>)
    requires
        graph_wf(*g),
        j < g.nodes@.len(),
    ensures
        cmds_view(final(out)@) == cmds_view(old(out)@) + physical_slots(*g, j as int, 0, hide),
{
    let len = g.nodes[j].slots.len();
    let id = g.nodes[j].id;
    let mut k: usize = 0;
    while k < len
        invariant
            graph_wf(*g),
            j < g.nodes@.len(),
            k <= len,
            len == slots_of(*g, j as int).len(),
            id == g.nodes@[j as int].id,
            cmds_view(out@) + physical_slots(*g, j as int, k as int, hide) == cmds_view(old(out)@) + physical_slots(*g, j as int, 0, hide),
        decreases len - k,
    {
        let ghost before = cmds_view(out@);
        let s = &g.nodes[j].slots[k];
        let path: Vec<u8> = vec![s.byte];
        assert(path@ =~= seq![s.byte]);
        let ghost edge: Seq<CmdView> = match s.child {
            Some(c) => seq![CmdView::Edge(id, g.nodes@[c as int].id, seq![s.byte])],
            None => Seq::empty(),
        };
        match s.child {
            Some(c) => {
                assert(c < g.nodes@.len());
                let ghost o = out@;
                out.push(DrawCmd::Edge(id, g.nodes[c].id, copy_path(&path)));
                proof {
                    lemma_cmds_push(o, out@.last());
                    assert(out@ =~= o.push(out@.last()));
                }
            },
            None => {},
        }
        assert(cmds_view(out@) =~= before + edge);
        push_value(out, id, s, &path, hide);
        proof {
            assert(physical_slots(*g, j as int, k as int, hide)
                == edge + value_cmd(id, *s, seq![s.byte], hide) + physical_slots(*g, j as int, k + 1, hide));
            assert(cmds_view(out@) + physical_slots(*g, j as int, k + 1, hide)
                =~= before + physical_slots(*g, j as int, k as int, hide));
        }
        k += 1;
    }
    assert(physical_slots(*g, j as int, len as int, hide) =~= Seq::<CmdView>::empty());
    assert(cmds_view(out@) =~= cmds_view(out@) + physical_slots(*g, j as int, len as int, hide));
}

/// Appends the logical commands of the path that leaves point `from` through slot `k` of node
/// `j` after the bytes `pre`.
fn push_walk(
    g: &NodeGraph,
    points: &Vec<bool>,
    hide: bool,
    from: u64,
    pre: &Vec<u8>,
    j: usize,
    k: usize,
    out: &mut Vec<DrawCmd>,
)
    requires
        graph_wf(*g),
        j < g.nodes@.len(),
        k < slots_of(*g, j as int).len(),
        points@.len() == g.nodes@.len(),
        forall|c: int| 0 <= c < g.nodes@.len() ==> #[trigger] points@[c] == logical_point(*g, c, hide),
    ensures
        cmds_view(final(out)@) == cmds_view(old(out)@) + logical_walk(*g, from, pre@, j as int, k as int, hide),
    decreases g.nodes@.len() - j,
{
    let s = &g.nodes[j].slots[k];
    let mut path = copy_path(pre);
    path.push(s.byte);
    assert(path@ == pre@.push(s.byte));
    push_value(out, from, s, &path, hide);
    let ghost mid = cmds_view(out@);
    match s.child {
        Some(c) => {
            assert(j < c < g.nodes@.len());
            if points[c] {
                let ghost o = out@;
                out.push(DrawCmd::Edge(from, g.nodes[c].id, path));
                proof {
                    lemma_cmds_push(o, out@.last());
                    assert(out@ =~= o.push(out@.last()));
                }
            } else if g.nodes[c].slots.len() > 0 {
                push_walk(g, points, hide, from, &path, c, 0, out);
            } else {
                proof {
                    assert(logical_walk(*g, from, path@, c as int, 0, hide) =~= Seq::<CmdView>::empty());
                }
            }
        },
        None => {},
    }
    proof {
        assert(cmds_view(out@) =~= cmds_view(old(out)@) + logical_walk(*g, from, pre@, j as int, k as int, hide));
    }
}

/// Appends the logical commands of the paths that leave point `j`.
fn push_logical(g: &NodeGraph, points: &Vec<bool>, hide: bool, j: usize, out: &mut Vec<DrawCmd>)
    requires
        graph_wf(*g),
        j < g.nodes@.len(),
        points@.len() == g.nodes@.len(),
        forall|c: int| 0 <= c < g.nodes@.len() ==> #[trigger] points@[c] == logical_point(*g, c, hide),
    ensures
        cmds_view(final(out)@) == cmds_view(old(out)@) + logical_slots(*g, j as int, 0, hide),
{
    let len = g.nodes[j].slots.len();
    let id = g.nodes[j].id;
    let empty: Vec<u8> = Vec::new();
    let mut k: usize = 0;
    while k < len
        invariant
            graph_wf(*g),
            j < g.nodes@.len(),
            k <= len,
            len == slots_of(*g, j as int).len(),
            id == g.nodes@[j as int].id,
            empty@ == Seq::<u8>::empty(),
            points@.len() == g.nodes@.len(),
            forall|c: int| 0 <= c < g.nodes@.len() ==> #[trigger] points@[c] == logical_point(*g, c, hide),
            cmds_view(out@) + logical_slots(*g, j as int, k as int, hide) == cmds_view(old(out)@) + logical_slots(*g, j as int, 0, hide),
        decreases len - k,
    {
        let ghost before = cmds_view(out@);
        push_walk(g, points, hide, id, &empty, j, k, out);
        proof {
            assert(cmds_view(out@) + logical_slots(*g, j as int, k + 1, hide)
                =~= before + logical_slots(*g, j as int, k as int, hide));
        }
        k += 1;
    }
    assert(logical_slots(*g, j as int, len as int, hide) =~= Seq::<CmdView>::empty());
    assert(cmds_view(out@) =~= cmds_view(out@) + logical_slots(*g, j as int, len as int, hide));
}

/// Whether map `i` reaches each node (no node, when there is no map `i`).
fn reach_or_none(g: &NodeGraph, i: usize) -> (r: Vec<bool>)
    requires
        graph_wf(*g),
    ensures
        r@.len() == g.nodes@.len(),
        forall|j: int| 0 <= j < g.nodes@.len() ==> #[trigger] r@[j] == map_reaches(*g, i as int, j),
{
    if i < g.roots.len() {
        reach_of_map(g, i)
    } else {
        falses(g.nodes.len())
    }
}

/// The commands that draw the tries of the graph `g` with the settings `dc`: one `MapRoot` per
/// map, first, then for each node in order those of [`node_cmds`].  In the physical drawing
/// every node that a map reaches gets one `Node`, coloured by the maps that reach it, an `Edge`
/// for each child and a `Value` for each value; in the logical drawing only the reached points
/// do, with edges and values labelled by the bytes from the point; values are left out when
/// `dc.hide_value_paths` is set.
pub fn draw_commands(g: &NodeGraph, dc: &DrawConfig) -> (r: Vec<DrawCmd>)
    requires
        graph_wf(*g),
    ensures
        cmds_view(r@) == drawing(*g, *dc),
{
    let n = g.nodes.len();
    let hide = dc.hide_value_paths;
    let r0 = reach_or_none(g, 0);
    let r1 = reach_or_none(g, 1);
    let r2 = reach_or_none(g, 2);
    let roots = root_flags(g);
    let (cnt, vab) = parent_counts(g);
    let mut out: Vec<DrawCmd> = Vec::new();
    let mut i: usize = 0;
    while i < g.roots.len()
        invariant
            graph_wf(*g),
            i <= g.roots@.len(),
            cmds_view(out@) + map_cmds(*g, i as int) == map_cmds(*g, 0),
        decreases g.roots@.len() - i,
    {
        let ghost o = out@;
        let root = g.roots[i];
        out.push(DrawCmd::MapRoot(i, g.nodes[root].id));
        proof {
            lemma_cmds_push(o, out@.last());
            assert(cmds_view(out@) + map_cmds(*g, i + 1) =~= cmds_view(o) + map_cmds(*g, i as int));
        }
        i += 1;
    }
    assert(map_cmds(*g, i as int) =~= Seq::<CmdView>::empty());
    assert(cmds_view(out@) =~= map_cmds(*g, 0));
    let mut points: Vec<bool> = Vec::new();
    let mut c: usize = 0;
    while c < n
        invariant
            graph_wf(*g),
            n == g.nodes@.len(),
            c <= n,
            roots@.len() == n,
            cnt@.len() == n,
            vab@.len() == n,
            forall|x: int| 0 <= x < n ==> #[trigger] roots@[x] == is_root(*g, x),
            forall|x: int| 0 <= x < n ==> (#[trigger] cnt@[x] >= 2) == (edges_to(*g, x, n as int) >= 2),
            forall|x: int| 0 <= x < n ==> #[trigger] vab@[x] == value_above(*g, x),
            points@.len() == c,
            forall|x: int| 0 <= x < c ==> #[trigger] points@[x] == logical_point(*g, x, hide),
        decreases n - c,
    {
        let len = g.nodes[c].slots.len();
        let p = roots[c] || cnt[c] >= 2 || len >= 2 || (len == 1 && vab[c] && !hide);
        points.push(p);
        c += 1;
    }
    let mut j: usize = 0;
    while j < n
        invariant
            graph_wf(*g),
            n == g.nodes@.len(),
            j <= n,
            hide == dc.hide_value_paths,
            r0@.len() == n,
            r1@.len() == n,
            r2@.len() == n,
            forall|x: int| 0 <= x < n ==> #[trigger] r0@[x] == map_reaches(*g, 0, x),
            forall|x: int| 0 <= x < n ==> #[trigger] r1@[x] == map_reaches(*g, 1, x),
            forall|x: int| 0 <= x < n ==> #[trigger] r2@[x] == map_reaches(*g, 2, x),
            roots@.len() == n,
            forall|x: int| 0 <= x < n ==> #[trigger] roots@[x] == is_root(*g, x),
            points@.len() == n,
            forall|x: int| 0 <= x < n ==> #[trigger] points@[x] == logical_point(*g, x, hide),
            cmds_view(out@) + nodes_cmds(*g, j as int, *dc) == drawing(*g, *dc),
        decreases n - j,
    {
        let ghost before = cmds_view(out@);
        let b0 = r0[j];
        let b1 = r1[j];
        let b2 = r2[j];
        proof {
            assert(reachable(*g, j as int) == (b0 || b1 || b2)) by {
                if reachable(*g, j as int) {
                    let ii = choose|ii: int| #[trigger] map_reaches(*g, ii, j as int);
                    assert(ii == 0 || ii == 1 || ii == 2);
                }
                if b0 {
                    assert(map_reaches(*g, 0, j as int));
                }
                if b1 {
                    assert(map_reaches(*g, 1, j as int));
                }
                if b2 {
                    assert(map_reaches(*g, 2, j as int));
                }
            }
        }
        if b0 || b1 || b2 {
            let mask: u64 = (if b0 { 1u64 } else { 0u64 }) + (if b1 { 2u64 } else { 0u64 }) + (if b2 { 4u64 } else { 0u64 });
            assert(mask == reach_mask(*g, j as int));
            if !dc.logical {
                let ghost o = out@;
                out.push(DrawCmd::Node(g.nodes[j].id, mask));
                proof {
                    lemma_cmds_push(o, out@.last());
                }
                push_physical(g, j, hide, &mut out);
            } else if points[j] {
                if !roots[j] {
                    let ghost o = out@;
                    out.push(DrawCmd::Node(g.nodes[j].id, mask));
                    proof {
                        lemma_cmds_push(o, out@.last());
                    }
                }
                push_logical(g, &points, hide, j, &mut out);
            }
        }
        proof {
            assert(cmds_view(out@) =~= before + node_cmds(*g, j as int, *dc));
            assert(nodes_cmds(*g, j as int, *dc) == node_cmds(*g, j as int, *dc) + nodes_cmds(*g, j + 1, *dc));
            assert(cmds_view(out@) + nodes_cmds(*g, j + 1, *dc) =~= before + nodes_cmds(*g, j as int, *dc));
        }
        j += 1;
    }
    assert(nodes_cmds(*g, n as int, *dc) =~= Seq::<CmdView>::empty());
    assert(cmds_view(out@) =~= drawing(*g, *dc));
    out
}

} // verus!
