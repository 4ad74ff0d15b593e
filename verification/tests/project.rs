use waterdrop_terrain_generator::assoc::AssocMap;
use waterdrop_terrain_generator::graph::topology::GraphNodeId;
use waterdrop_terrain_generator::graph::NodeGraph;
use waterdrop_terrain_generator::node::{NodeError, NodeLocality, NodePortType, NodeShape, NodeSocket, SocketDtype};
use waterdrop_terrain_generator::project::{connect_project_edges, project_edges, ProjectEdge, ProjectError};
use waterdrop_terrain_generator::tiling::grid::ChunkGrid;

fn node(n_inputs: usize) -> NodeShape {
    NodeShape {
        label: "N".to_string(),
        inputs: (0..n_inputs)
            .map(|_| NodeSocket { name: "In", dtype: SocketDtype::Fixed(NodePortType::Height), required: true })
            .collect(),
        outputs: vec![NodeSocket { name: "Out", dtype: SocketDtype::Fixed(NodePortType::Height), required: true }],
        locality: NodeLocality::Local,
        size: 0,
    }
}

#[test]
fn project_edges_use_file_ids_that_skip_removed_nodes() {
    let mut g: NodeGraph<(), ()> = NodeGraph::new(ChunkGrid::single(8));
    let a = g.add_node((), node(0));
    let gone = g.add_node((), node(0));
    let b = g.add_node((), node(2));
    let c = g.add_node((), node(1));
    g.connect(a, 0, b, 1).unwrap();
    g.connect(b, 0, c, 0).unwrap();
    g.remove_node(gone).unwrap();
    // file ids: a -> 0, b -> 1, c -> 2
    assert_eq!(
        project_edges(g.topology()),
        vec![
            ProjectEdge { from_node: 0, from_socket: 0, to_node: 1, to_socket: 1 },
            ProjectEdge { from_node: 1, from_socket: 0, to_node: 2, to_socket: 0 },
        ]
    );
}

#[test]
fn loading_rebuilds_the_connections_between_mapped_nodes() {
    let mut g: NodeGraph<(), ()> = NodeGraph::new(ChunkGrid::single(8));
    let x = g.add_node((), node(0));
    let y = g.add_node((), node(1));
    let mut ids: AssocMap<usize, GraphNodeId> = AssocMap::new();
    ids.insert(10, x);
    ids.insert(11, y);
    let edges = vec![ProjectEdge { from_node: 10, from_socket: 0, to_node: 11, to_socket: 0 }];
    let made = connect_project_edges(&mut g, &ids, &edges).ok().unwrap();
    assert_eq!(made, vec![(x, 0, y, 0)]);
    assert_eq!(g.edges(), vec![(x, 0, y, 0)]);
    let saved = project_edges(g.topology());
    assert_eq!(saved, vec![ProjectEdge { from_node: 0, from_socket: 0, to_node: 1, to_socket: 0 }]);
}

#[test]
fn loading_stops_at_an_unknown_node_or_a_refused_connection() {
    let mut g: NodeGraph<(), ()> = NodeGraph::new(ChunkGrid::single(8));
    let x = g.add_node((), node(0));
    let y = g.add_node((), node(1));
    let mut ids: AssocMap<usize, GraphNodeId> = AssocMap::new();
    ids.insert(0, x);
    ids.insert(1, y);
    let unknown = vec![
        ProjectEdge { from_node: 0, from_socket: 0, to_node: 1, to_socket: 0 },
        ProjectEdge { from_node: 5, from_socket: 0, to_node: 1, to_socket: 0 },
    ];
    assert!(matches!(connect_project_edges(&mut g, &ids, &unknown), Err(ProjectError::UnknownNode)));
    assert_eq!(g.edges(), vec![(x, 0, y, 0)]);
    let refused = vec![ProjectEdge { from_node: 0, from_socket: 0, to_node: 1, to_socket: 3 }];
    assert!(matches!(
        connect_project_edges(&mut g, &ids, &refused),
        Err(ProjectError::Connect(NodeError::InputSocketNotFound { socket: 3, .. }))
    ));
}

#[test]
fn project_edges_are_listed_by_target_then_socket() {
    let mut g: NodeGraph<(), ()> = NodeGraph::new(ChunkGrid::single(8));
    let a = g.add_node((), node(0));
    let b = g.add_node((), node(0));
    let m = g.add_node((), node(2));
    let z = g.add_node((), node(1));
    g.connect(m, 0, z, 0).unwrap();
    g.connect(b, 0, m, 1).unwrap();
    g.connect(a, 0, m, 0).unwrap();
    assert_eq!(
        project_edges(g.topology()),
        vec![
            ProjectEdge { from_node: 0, from_socket: 0, to_node: 2, to_socket: 0 },
            ProjectEdge { from_node: 1, from_socket: 0, to_node: 2, to_socket: 1 },
            ProjectEdge { from_node: 2, from_socket: 0, to_node: 3, to_socket: 0 },
        ]
    );
}

#[test]
fn saved_edges_load_back_as_the_same_wiring() {
    let mut g: NodeGraph<(), ()> = NodeGraph::new(ChunkGrid::single(8));
    let a = g.add_node((), node(0));
    let gone = g.add_node((), node(0));
    let b = g.add_node((), node(2));
    let c = g.add_node((), node(1));
    g.connect(b, 0, c, 0).unwrap();
    g.connect(a, 0, b, 1).unwrap();
    g.connect(a, 0, b, 0).unwrap();
    g.remove_node(gone).unwrap();
    let saved = project_edges(g.topology());

    // Load into a fresh graph whose nodes come in file-id order.
    let mut h: NodeGraph<(), ()> = NodeGraph::new(ChunkGrid::single(8));
    let mut ids: AssocMap<usize, GraphNodeId> = AssocMap::new();
    for (file_id, _) in g.topology().node_ids().into_iter().enumerate() {
        ids.insert(file_id, h.add_node((), node(if file_id == 1 { 2 } else if file_id == 2 { 1 } else { 0 })));
    }
    let made = connect_project_edges(&mut h, &ids, &saved).ok().unwrap();
    let renamed = |id: GraphNodeId| match id {
        x if x == a => GraphNodeId(0),
        x if x == b => GraphNodeId(1),
        _ => GraphNodeId(2),
    };
    let mut expected: Vec<_> = g.edges().into_iter().map(|(f, fs, t, ts)| (renamed(f), fs, renamed(t), ts)).collect();
    let mut loaded = h.edges();
    expected.sort_by_key(|e| (e.2 .0, e.3));
    loaded.sort_by_key(|e| (e.2 .0, e.3));
    assert_eq!(loaded, expected);
    assert_eq!(made.len(), 3);
    assert_eq!(project_edges(h.topology()), saved);
}
