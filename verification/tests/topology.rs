use waterdrop_terrain_generator::graph::topology::{GraphNodeId, Topology};
use waterdrop_terrain_generator::node::{NodeError, NodeLocality, NodePortType, NodeShape, NodeSocket, SocketDtype};

fn socket(name: &'static str, dtype: SocketDtype, required: bool) -> NodeSocket {
    NodeSocket { name, dtype, required }
}

fn shape(label: &str, inputs: Vec<NodeSocket>, outputs: Vec<NodeSocket>, locality: NodeLocality, size: usize) -> NodeShape {
    NodeShape { label: label.to_string(), inputs, outputs, locality, size }
}

fn height() -> SocketDtype {
    SocketDtype::Fixed(NodePortType::Height)
}

fn source(label: &str) -> NodeShape {
    shape(label, vec![], vec![socket("Height", height(), true)], NodeLocality::Local, 0)
}

fn filter(label: &str) -> NodeShape {
    shape(label, vec![socket("In", height(), true)], vec![socket("Out", height(), true)], NodeLocality::Local, 0)
}

#[test]
fn add_node_hands_out_consecutive_ids() {
    let mut t: Topology<u32> = Topology::new();
    let a = t.add_node(10, source("A"));
    let b = t.add_node(20, source("B"));
    assert_eq!(a, GraphNodeId(0));
    assert_eq!(b, GraphNodeId(1));
    assert!(t.contains(a) && t.contains(b));
    assert!(!t.contains(GraphNodeId(2)));
    assert_eq!(*t.node(b).unwrap(), 20);
    assert_eq!(t.slot_len(), 2);
}

#[test]
fn connect_wires_input_and_lists_output() {
    let mut t: Topology<()> = Topology::new();
    let a = t.add_node((), source("A"));
    let b = t.add_node((), filter("B"));
    t.connect(a, 0, b, 0).unwrap();
    assert_eq!(t.inputs(b).unwrap().to_vec(), vec![Some((a, 0))]);
    assert_eq!(t.outputs(a).unwrap().to_vec(), vec![b]);
    assert_eq!(t.edges(), vec![(a, 0, b, 0)]);
}

#[test]
fn connect_reports_each_error() {
    let mut t: Topology<()> = Topology::new();
    let a = t.add_node((), source("A"));
    let b = t.add_node((), filter("B"));
    let m = t.add_node((), shape("M", vec![socket("Mask", SocketDtype::Fixed(NodePortType::Mask), true)], vec![], NodeLocality::Local, 0));
    assert!(matches!(t.connect(GraphNodeId(9), 0, b, 0), Err(NodeError::NodeNotFound(GraphNodeId(9)))));
    assert!(matches!(t.connect(a, 3, b, 0), Err(NodeError::OutputSocketNotFound { node, socket: 3 }) if node == "GraphNodeId(0)"));
    assert!(matches!(t.connect(a, 0, GraphNodeId(7), 0), Err(NodeError::NodeNotFound(GraphNodeId(7)))));
    assert!(matches!(t.connect(a, 0, b, 5), Err(NodeError::InputSocketNotFound { node, socket: 5 }) if node == "GraphNodeId(1)"));
    match t.connect(a, 0, m, 0) {
        Err(NodeError::SocketTypeMismatch { from_node, from_socket, to_node, to_socket }) => {
            assert_eq!(from_node, "GraphNodeId(0)");
            assert_eq!(from_socket, "Height");
            assert_eq!(to_node, "GraphNodeId(2)");
            assert_eq!(to_socket, "Mask");
        },
        other => panic!("unexpected {:?}", other),
    }
    assert!(t.edges().is_empty());
}

#[test]
fn connecting_an_occupied_input_replaces_its_edge() {
    let mut t: Topology<()> = Topology::new();
    let a = t.add_node((), source("A"));
    let c = t.add_node((), source("C"));
    let b = t.add_node((), filter("B"));
    t.connect(a, 0, b, 0).unwrap();
    t.connect(c, 0, b, 0).unwrap();
    assert_eq!(t.edges(), vec![(c, 0, b, 0)]);
    assert_eq!(t.inputs(b).unwrap().to_vec(), vec![Some((c, 0))]);
    assert!(t.outputs(a).unwrap().is_empty());
}

#[test]
fn connect_then_disconnect_restores_the_edges() {
    let mut t: Topology<()> = Topology::new();
    let a = t.add_node((), source("A"));
    let b = t.add_node((), filter("B"));
    let c = t.add_node((), filter("C"));
    t.connect(a, 0, b, 0).unwrap();
    let before = t.edges();
    t.connect(b, 0, c, 0).unwrap();
    t.disconnect(b, 0, c, 0).unwrap();
    assert_eq!(t.edges(), before);
    assert_eq!(t.inputs(c).unwrap().to_vec(), vec![None]);
    assert!(t.outputs(b).unwrap().is_empty());
}

#[test]
fn disconnect_missing_edge_is_not_connected() {
    let mut t: Topology<()> = Topology::new();
    let a = t.add_node((), source("A"));
    let b = t.add_node((), filter("B"));
    match t.disconnect(a, 0, b, 0) {
        Err(NodeError::NotConnected { from_node, from_socket, to_node, to_socket }) => {
            assert_eq!(from_node, a);
            assert_eq!(to_node, b);
            assert_eq!(from_socket, "Height");
            assert_eq!(to_socket, "In");
        },
        other => panic!("unexpected {:?}", other),
    }
}

#[test]
fn disconnect_names_socket_by_index_when_it_does_not_exist() {
    let mut t: Topology<()> = Topology::new();
    let a = t.add_node((), source("A"));
    match t.disconnect(a, 4, GraphNodeId(8), 2) {
        Err(NodeError::NotConnected { from_socket, to_socket, .. }) => {
            assert_eq!(from_socket, "4");
            assert_eq!(to_socket, "2");
        },
        other => panic!("unexpected {:?}", other),
    }
}

#[test]
fn remove_node_drops_every_touching_edge() {
    let mut t: Topology<()> = Topology::new();
    let a = t.add_node((), source("A"));
    let b = t.add_node((), filter("B"));
    let c = t.add_node((), filter("C"));
    let d = t.add_node((), filter("D"));
    t.connect(a, 0, b, 0).unwrap();
    t.connect(b, 0, c, 0).unwrap();
    t.connect(a, 0, d, 0).unwrap();
    t.remove_node(b).unwrap();
    assert!(!t.contains(b));
    assert_eq!(t.edges(), vec![(a, 0, d, 0)]);
    assert_eq!(t.inputs(c).unwrap().to_vec(), vec![None]);
    assert_eq!(t.outputs(a).unwrap().to_vec(), vec![d]);
    assert!(matches!(t.remove_node(b), Err(NodeError::NodeNotFound(id)) if id == b));
    let e = t.add_node((), source("E"));
    assert_eq!(e, GraphNodeId(4));
}

#[test]
fn collect_ancestors_stops_at_global_nodes() {
    let mut t: Topology<()> = Topology::new();
    let a = t.add_node((), source("A"));
    let g = t.add_node((), shape("G", vec![socket("In", height(), true)], vec![socket("Out", height(), true)], NodeLocality::Global { native_resolution: 64 }, 0));
    let b = t.add_node((), filter("B"));
    t.connect(a, 0, g, 0).unwrap();
    t.connect(g, 0, b, 0).unwrap();
    let mut from_b = t.collect_ancestors(b).unwrap();
    from_b.sort_by_key(|id| id.0);
    assert_eq!(from_b, vec![g, b]);
    let mut from_g = t.collect_ancestors(g).unwrap();
    from_g.sort_by_key(|id| id.0);
    assert_eq!(from_g, vec![a, g]);
    assert!(matches!(t.collect_ancestors(GraphNodeId(5)), Err(NodeError::NodeNotFound(_))));
}

#[test]
fn generic_sockets_resolve_from_what_is_wired() {
    let mut t: Topology<()> = Topology::new();
    let a = t.add_node((), source("A"));
    let gen = t.add_node((), shape("Gen", vec![socket("A", SocketDtype::Generic, true), socket("B", SocketDtype::Generic, true)], vec![socket("Out", SocketDtype::Generic, true)], NodeLocality::Local, 0));
    let m = t.add_node((), shape("M", vec![], vec![socket("Mask", SocketDtype::Fixed(NodePortType::Mask), true)], NodeLocality::Local, 0));
    assert_eq!(t.output_dtype(gen, 0), None);
    t.connect(a, 0, gen, 0).unwrap();
    assert_eq!(t.output_dtype(gen, 0), Some(NodePortType::Height));
    assert!(matches!(t.connect(m, 0, gen, 1), Err(NodeError::SocketTypeMismatch { .. })));
    assert_eq!(t.output_dtype(a, 0), Some(NodePortType::Height));
    assert_eq!(t.output_dtype(a, 1), None);
}

#[test]
fn update_shape_changes_only_label_locality_and_size() {
    let mut t: Topology<()> = Topology::new();
    let a = t.add_node((), source("A"));
    t.update_shape(a, "A2".to_string(), NodeLocality::Global { native_resolution: 128 }, 5).unwrap();
    let s = t.shape_of(a).unwrap();
    assert_eq!(s.label, "A2");
    assert_eq!(s.locality, NodeLocality::Global { native_resolution: 128 });
    assert_eq!(s.size, 5);
    assert_eq!(s.outputs.len(), 1);
    assert!(matches!(t.update_shape(GraphNodeId(3), "x".to_string(), NodeLocality::Local, 0), Err(NodeError::NodeNotFound(_))));
}

#[test]
fn node_ids_are_the_live_ids_in_ascending_order() {
    let mut t: Topology<()> = Topology::new();
    let a = t.add_node((), source("A"));
    let b = t.add_node((), source("B"));
    let c = t.add_node((), source("C"));
    t.remove_node(b).unwrap();
    assert_eq!(t.node_ids(), vec![a, c]);
}

#[test]
fn node_mut_edits_the_node_in_place() {
    let mut t: Topology<u32> = Topology::new();
    let a = t.add_node(1, source("A"));
    *t.node_mut(a).unwrap() = 7;
    assert_eq!(*t.node(a).unwrap(), 7);
    assert!(t.node_mut(GraphNodeId(4)).is_err());
}

#[test]
fn rewiring_a_generic_input_ignores_the_wire_it_replaces() {
    let mut t: Topology<()> = Topology::new();
    let h = t.add_node((), source("H"));
    let gen = t.add_node((), shape("Gen", vec![socket("A", SocketDtype::Generic, true), socket("B", SocketDtype::Generic, true)], vec![socket("Out", SocketDtype::Generic, true)], NodeLocality::Local, 0));
    let c = t.add_node((), shape("C", vec![], vec![socket("Color", SocketDtype::Fixed(NodePortType::Color), true)], NodeLocality::Local, 0));
    t.connect(h, 0, gen, 0).unwrap();
    assert_eq!(t.output_dtype(gen, 0), Some(NodePortType::Height));
    assert!(t.connect(c, 0, gen, 0).is_ok());
    assert_eq!(t.inputs(gen).unwrap().to_vec(), vec![Some((c, 0)), None]);
    assert_eq!(t.edges(), vec![(c, 0, gen, 0)]);
    assert!(t.outputs(h).unwrap().is_empty());
    assert_eq!(t.output_dtype(gen, 0), Some(NodePortType::Color));
}
