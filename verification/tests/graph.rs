use waterdrop_terrain_generator::evaluation::cache::EvalScope;
use waterdrop_terrain_generator::graph::topology::GraphNodeId;
use waterdrop_terrain_generator::graph::NodeGraph;
use waterdrop_terrain_generator::node::{NodeError, NodeLocality, NodePortType, NodeShape, NodeSocket, SocketDtype};
use waterdrop_terrain_generator::tiling::grid::{ChunkCoord, ChunkGrid};

fn node(label: &str, inputs: &[(&'static str, bool)]) -> NodeShape {
    NodeShape {
        label: label.to_string(),
        inputs: inputs
            .iter()
            .map(|(name, required)| NodeSocket { name: *name, dtype: SocketDtype::Fixed(NodePortType::Height), required: *required })
            .collect(),
        outputs: vec![NodeSocket { name: "Out", dtype: SocketDtype::Fixed(NodePortType::Height), required: true }],
        locality: NodeLocality::Local,
        size: 0,
    }
}

fn cache_all(graph: &mut NodeGraph<u8, u8>, ids: &[GraphNodeId]) {
    let (_, _, cache, _) = graph.driver();
    for id in ids {
        cache.set(*id, EvalScope::Chunk(ChunkCoord(0, 0)), 1);
    }
}

fn cached(graph: &NodeGraph<u8, u8>, id: GraphNodeId) -> bool {
    graph.cache().get(id, EvalScope::Chunk(ChunkCoord(0, 0))).is_some()
}

#[test]
fn connecting_drops_the_outputs_downstream_of_both_ends() {
    let mut g: NodeGraph<u8, u8> = NodeGraph::new(ChunkGrid::single(8));
    let a = g.add_node(0, node("A", &[]));
    let b = g.add_node(0, node("B", &[("In", true)]));
    let c = g.add_node(0, node("C", &[("In", true)]));
    let other = g.add_node(0, node("Other", &[]));
    g.connect(b, 0, c, 0).unwrap();
    cache_all(&mut g, &[a, b, c, other]);
    g.connect(a, 0, b, 0).unwrap();
    assert!(!cached(&g, a));
    assert!(!cached(&g, b));
    assert!(!cached(&g, c));
    assert!(cached(&g, other));
}

#[test]
fn a_refused_connection_keeps_every_cached_output() {
    let mut g: NodeGraph<u8, u8> = NodeGraph::new(ChunkGrid::single(8));
    let a = g.add_node(0, node("A", &[]));
    let b = g.add_node(0, node("B", &[("In", true)]));
    cache_all(&mut g, &[a, b]);
    assert!(g.connect(a, 4, b, 0).is_err());
    assert!(cached(&g, a) && cached(&g, b));
}

#[test]
fn editing_a_node_drops_its_descendants_outputs() {
    let mut g: NodeGraph<u8, u8> = NodeGraph::new(ChunkGrid::single(8));
    let a = g.add_node(0, node("A", &[]));
    let b = g.add_node(0, node("B", &[("In", true)]));
    let c = g.add_node(0, node("C", &[]));
    g.connect(a, 0, b, 0).unwrap();
    cache_all(&mut g, &[a, b, c]);
    *g.node_mut(a).unwrap() = 9;
    assert_eq!(*g.node(a).unwrap(), 9);
    assert!(!cached(&g, a) && !cached(&g, b));
    assert!(cached(&g, c));
    cache_all(&mut g, &[a, b]);
    g.refresh_node(b, "B2".to_string(), NodeLocality::Local, 3).unwrap();
    assert!(cached(&g, a));
    assert!(!cached(&g, b));
    assert_eq!(g.topology().shape_of(b).unwrap().size, 3);
}

#[test]
fn disconnect_and_remove_drop_outputs_downstream() {
    let mut g: NodeGraph<u8, u8> = NodeGraph::new(ChunkGrid::single(8));
    let a = g.add_node(0, node("A", &[]));
    let b = g.add_node(0, node("B", &[("In", true)]));
    let c = g.add_node(0, node("C", &[("In", true)]));
    g.connect(a, 0, b, 0).unwrap();
    g.connect(b, 0, c, 0).unwrap();
    cache_all(&mut g, &[a, b, c]);
    g.disconnect(b, 0, c, 0).unwrap();
    assert!(cached(&g, a));
    assert!(!cached(&g, b) && !cached(&g, c));
    cache_all(&mut g, &[b, c]);
    g.remove_node(a).unwrap();
    assert!(!cached(&g, b));
    assert!(cached(&g, c));
    assert!(g.edges().is_empty());
}

#[test]
fn changing_the_grid_drops_every_cached_output() {
    let mut g: NodeGraph<u8, u8> = NodeGraph::new(ChunkGrid::single(8));
    let a = g.add_node(0, node("A", &[]));
    cache_all(&mut g, &[a]);
    g.set_chunk_grid(ChunkGrid::new(2, 2, 16));
    assert!(!cached(&g, a));
    assert_eq!(g.tile_size(), 16);
    assert_eq!(g.chunk_grid().chunks_x(), 2);
}

#[test]
fn has_valid_connections_follows_required_inputs() {
    let mut g: NodeGraph<u8, u8> = NodeGraph::new(ChunkGrid::single(8));
    let a = g.add_node(0, node("A", &[("Base", true)]));
    let b = g.add_node(0, node("B", &[("In", true), ("Mask", false)]));
    g.connect(a, 0, b, 0).unwrap();
    match g.has_valid_connections(b) {
        Err(NodeError::InputNotConnected { node_id, node, socket }) => {
            assert_eq!(node_id, a);
            assert_eq!(node, "A");
            assert_eq!(socket, "Base");
        },
        other => panic!("unexpected {:?}", other),
    }
    let s = g.add_node(0, node("S", &[]));
    g.connect(s, 0, a, 0).unwrap();
    assert!(g.has_valid_connections(b).is_ok());
    assert!(matches!(g.has_valid_connections(GraphNodeId(40)), Err(NodeError::NodeNotFound(_))));
}

#[test]
fn is_processing_is_a_flag_for_the_interface() {
    let mut g: NodeGraph<u8, u8> = NodeGraph::new(ChunkGrid::single(8));
    assert!(!g.is_processing());
    g.set_is_processing(true);
    assert!(g.is_processing());
}
