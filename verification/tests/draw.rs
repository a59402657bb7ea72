use pathmap::draw::{check_graph, draw_commands, DrawCmd, GraphNode, GraphSlot, NodeGraph};
use pathmap::viz::DrawConfig;

fn slot(byte: u8, child: Option<usize>, value: Option<u64>) -> GraphSlot {
    GraphSlot { byte, child, value }
}

/// Map 0 is the root `A`; `A` leads by byte 1 to `B`, which leads by byte 3 to `C`, the root of
/// map 1, so `C` is shared by both maps.
fn graph() -> NodeGraph {
    NodeGraph {
        nodes: vec![
            GraphNode { id: 10, slots: vec![slot(1, Some(1), None), slot(2, None, Some(100))] },
            GraphNode { id: 11, slots: vec![slot(3, Some(2), None)] },
            GraphNode { id: 12, slots: vec![slot(4, None, Some(101)), slot(5, None, Some(102))] },
        ],
        roots: vec![0, 2],
    }
}

fn config(logical: bool, hide: bool) -> DrawConfig {
    DrawConfig { ascii: false, hide_value_paths: hide, minimize_values: false, logical }
}

#[test]
fn physical_drawing_has_every_reached_node() {
    let g = graph();
    assert!(check_graph(&g));
    let cmds = draw_commands(&g, &config(false, false));
    assert_eq!(
        cmds,
        vec![
            DrawCmd::MapRoot(0, 10),
            DrawCmd::MapRoot(1, 12),
            DrawCmd::Node(10, 1),
            DrawCmd::Edge(10, 11, vec![1]),
            DrawCmd::Value(10, 100, vec![2]),
            DrawCmd::Node(11, 1),
            DrawCmd::Edge(11, 12, vec![3]),
            DrawCmd::Node(12, 3),
            DrawCmd::Value(12, 101, vec![4]),
            DrawCmd::Value(12, 102, vec![5]),
        ]
    );
}

#[test]
fn logical_drawing_joins_straight_paths() {
    let cmds = draw_commands(&graph(), &config(true, false));
    assert_eq!(
        cmds,
        vec![
            DrawCmd::MapRoot(0, 10),
            DrawCmd::MapRoot(1, 12),
            DrawCmd::Edge(10, 12, vec![1, 3]),
            DrawCmd::Value(10, 100, vec![2]),
            DrawCmd::Value(12, 101, vec![4]),
            DrawCmd::Value(12, 102, vec![5]),
        ]
    );
}

#[test]
fn hidden_values_are_not_drawn() {
    let cmds = draw_commands(&graph(), &config(false, true));
    assert!(cmds.iter().all(|c| !matches!(c, DrawCmd::Value(..))));
    assert_eq!(cmds.len(), 7);
}

#[test]
fn unreached_nodes_are_not_drawn() {
    let g = NodeGraph {
        nodes: vec![
            GraphNode { id: 1, slots: vec![slot(0, None, Some(5))] },
            GraphNode { id: 2, slots: vec![slot(0, None, Some(6))] },
        ],
        roots: vec![1],
    };
    let cmds = draw_commands(&g, &config(false, false));
    assert_eq!(cmds, vec![DrawCmd::MapRoot(0, 2), DrawCmd::Node(2, 1), DrawCmd::Value(2, 6, vec![0])]);
}

#[test]
fn graphs_with_backward_children_are_refused() {
    let g = NodeGraph {
        nodes: vec![GraphNode { id: 1, slots: vec![slot(0, Some(0), None)] }],
        roots: vec![0],
    };
    assert!(!check_graph(&g));
    let four = NodeGraph { nodes: vec![GraphNode { id: 1, slots: vec![] }], roots: vec![0, 0, 0, 0] };
    assert!(!check_graph(&four));
}
