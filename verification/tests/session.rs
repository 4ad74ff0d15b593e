use waterdrop_terrain_generator::graph::topology::GraphNodeId;
use waterdrop_terrain_generator::graph::NodeGraph;
use waterdrop_terrain_generator::node::NodeError;
use waterdrop_terrain_generator::session::{tile_resolutions, ProcessOutcome, TerrainSession};
use waterdrop_terrain_generator::tiling::grid::{ChunkCoord, ChunkGrid};

#[test]
fn tile_resolutions_are_powers_of_two_up_to_the_cap() {
    assert_eq!(tile_resolutions(), [64, 128, 256, 512, 1024, 2048, 4096]);
}

#[test]
fn process_hands_on_only_newer_generations_of_the_displayed_node() {
    let mut s: TerrainSession<u8, u8> = TerrainSession::new(ChunkGrid::new(2, 2, 256));
    let a = GraphNodeId(0);
    let b = GraphNodeId(1);
    assert_eq!(s.process(a, Ok(ProcessOutcome::Processed(1, "t1"))).unwrap(), Some((1, "t1")));
    assert_eq!(s.process(a, Ok(ProcessOutcome::Processed(1, "t1"))).unwrap(), None);
    assert_eq!(s.process(a, Ok(ProcessOutcome::<&str>::Processing)).unwrap(), None);
    assert_eq!(s.process(a, Ok(ProcessOutcome::Processed(2, "t2"))).unwrap(), Some((2, "t2")));
    // another node, even at an old generation, is shown: the selection changed
    assert_eq!(s.process(b, Ok(ProcessOutcome::Processed(1, "u"))).unwrap(), Some((1, "u")));
    // and coming back to the first node shows it again
    assert_eq!(s.process(a, Ok(ProcessOutcome::Processed(2, "t2"))).unwrap(), Some((2, "t2")));
    let r: Result<Option<(u64, &str)>, NodeError> = s.process(a, Err(NodeError::CyclicGraph));
    assert!(matches!(r, Err(NodeError::CyclicGraph)));
}

#[test]
fn note_selection_reports_a_change_once() {
    let mut s: TerrainSession<u8, u8> = TerrainSession::new(ChunkGrid::single(64));
    let a = GraphNodeId(3);
    assert!(s.note_selection(a));
    assert!(!s.note_selection(a));
    assert!(s.note_selection(GraphNodeId(4)));
}

#[test]
fn chunk_results_are_new_once_per_generation_unless_forced() {
    let mut s: TerrainSession<u8, u8> = TerrainSession::new(ChunkGrid::single(64));
    let a = GraphNodeId(0);
    let c = ChunkCoord(1, 1);
    assert_eq!(s.apply_chunk_result(a, c, false, Ok(ProcessOutcome::Processed(4, 'x'))).unwrap(), Some((4, 'x')));
    assert_eq!(s.apply_chunk_result(a, c, false, Ok(ProcessOutcome::Processed(4, 'x'))).unwrap(), None);
    assert_eq!(s.apply_chunk_result(a, c, true, Ok(ProcessOutcome::Processed(4, 'x'))).unwrap(), Some((4, 'x')));
    assert_eq!(s.apply_chunk_result(a, ChunkCoord(0, 0), false, Ok(ProcessOutcome::Processed(1, 'y'))).unwrap(), Some((1, 'y')));
    assert_eq!(s.apply_chunk_result(a, c, false, Ok(ProcessOutcome::<char>::Processing)).unwrap(), None);
}

#[test]
fn reset_graph_forgets_everything_tied_to_old_ids() {
    let mut s: TerrainSession<u8, u8> = TerrainSession::new(ChunkGrid::single(64));
    let a = GraphNodeId(0);
    s.set_selected_node(Some(a));
    s.set_action_result(a, Ok("done".to_string()));
    assert_eq!(s.process(a, Ok(ProcessOutcome::Processed(1, 0u8))).unwrap(), Some((1, 0)));
    s.reset_graph(NodeGraph::new(ChunkGrid::single(32)));
    assert_eq!(s.selected_node(), None);
    assert!(s.action_message(a).is_none());
    assert_eq!(s.graph().tile_size(), 32);
    // the generation bookkeeping starts over: generation 1 is new again
    assert!(s.note_selection(a));
    assert_eq!(s.process(a, Ok(ProcessOutcome::Processed(1, 0u8))).unwrap(), Some((1, 0)));
}

#[test]
fn action_messages_pass_through_to_the_log() {
    let mut s: TerrainSession<u8, u8> = TerrainSession::new(ChunkGrid::single(64));
    let a = GraphNodeId(2);
    s.set_action_result(a, Err(NodeError::CyclicGraph));
    assert_eq!(s.action_message(a).unwrap().text, "Graph contains a cycle");
    assert_eq!(s.action_message_remaining(a), None);
    s.prune_expired_messages();
    assert!(s.action_message(a).is_some());
    s.clear_action_message(a);
    assert!(s.action_message(a).is_none());
    let g = s.graph_mut();
    let id = g.add_node(7, waterdrop_terrain_generator::nodes::flat::Flat.shape());
    assert_eq!(*s.graph().node(id).unwrap(), 7);
}
