use waterdrop_terrain_generator::assoc::AssocMap;
use waterdrop_terrain_generator::evaluation::cache::{Cache, CacheEntry, EvalScope};
use waterdrop_terrain_generator::evaluation::plan::{
    checked_working_size, next_to_spawn, plan_local_inputs, required_working_size, topological_order, ResolvedInput,
};
use waterdrop_terrain_generator::evaluation::process::{gather, sync_pool_size, Decision, Gathered, Processor};
use waterdrop_terrain_generator::graph::topology::{GraphNodeId, Topology};
use waterdrop_terrain_generator::node::{NodeError, NodeLocality, NodePortType, NodeShape, NodeSocket, SocketDtype};
use waterdrop_terrain_generator::tiling::grid::{ChunkCoord, ChunkGrid};

fn height() -> SocketDtype {
    SocketDtype::Fixed(NodePortType::Height)
}

fn node(label: &str, n_inputs: usize, locality: NodeLocality, size: usize) -> NodeShape {
    let names = ["In", "Aux", "Extra"];
    NodeShape {
        label: label.to_string(),
        inputs: (0..n_inputs).map(|i| NodeSocket { name: names[i], dtype: height(), required: true }).collect(),
        outputs: vec![NodeSocket { name: "Out", dtype: height(), required: true }],
        locality,
        size,
    }
}

fn position(order: &[GraphNodeId], id: GraphNodeId) -> usize {
    order.iter().position(|x| *x == id).unwrap()
}

#[test]
fn topological_order_puts_feeders_first() {
    let mut t: Topology<()> = Topology::new();
    let a = t.add_node((), node("A", 0, NodeLocality::Local, 0));
    let b = t.add_node((), node("B", 1, NodeLocality::Local, 0));
    let c = t.add_node((), node("C", 2, NodeLocality::Local, 0));
    t.connect(a, 0, b, 0).unwrap();
    t.connect(b, 0, c, 0).unwrap();
    t.connect(a, 0, c, 1).unwrap();
    let order = topological_order(&t, c).unwrap();
    assert_eq!(order.len(), 3);
    assert!(position(&order, a) < position(&order, b));
    assert!(position(&order, b) < position(&order, c));
}

#[test]
fn topological_order_ends_at_the_requested_node() {
    let mut t: Topology<()> = Topology::new();
    let a = t.add_node((), node("A", 0, NodeLocality::Local, 0));
    let b = t.add_node((), node("B", 1, NodeLocality::Local, 0));
    let c = t.add_node((), node("C", 2, NodeLocality::Local, 0));
    t.connect(a, 0, c, 0).unwrap();
    t.connect(b, 0, c, 1).unwrap();
    let order = topological_order(&t, c).unwrap();
    assert_eq!(order.len(), 3);
    assert_eq!(order.last(), Some(&c));
    assert_eq!(topological_order(&t, a).unwrap(), vec![a]);
}

#[test]
fn topological_order_of_a_cycle_fails() {
    let mut t: Topology<()> = Topology::new();
    let a = t.add_node((), node("A", 1, NodeLocality::Local, 0));
    let b = t.add_node((), node("B", 1, NodeLocality::Local, 0));
    t.connect(a, 0, b, 0).unwrap();
    t.connect(b, 0, a, 0).unwrap();
    assert!(matches!(topological_order(&t, b), Err(NodeError::CyclicGraph)));
    assert!(matches!(topological_order(&t, GraphNodeId(6)), Err(NodeError::NodeNotFound(GraphNodeId(6)))));
}

#[test]
fn working_size_adds_each_local_kernel_margin_on_both_sides() {
    let mut t: Topology<()> = Topology::new();
    let a = t.add_node((), node("A", 0, NodeLocality::Local, 3));
    let b = t.add_node((), node("B", 1, NodeLocality::Local, 4));
    let g = t.add_node((), node("G", 0, NodeLocality::Global { native_resolution: 32 }, 9));
    let c = t.add_node((), node("C", 2, NodeLocality::Local, 0));
    t.connect(a, 0, b, 0).unwrap();
    t.connect(b, 0, c, 0).unwrap();
    t.connect(g, 0, c, 1).unwrap();
    // margins: a = 2, b = 2, c = 0, and nothing for the global g
    assert_eq!(required_working_size(&t, c, 64).unwrap(), 64 + 2 * 4);
    // a global node pads for its own kernel
    assert_eq!(required_working_size(&t, g, 32).unwrap(), 32 + 2 * 5);
    assert_eq!(checked_working_size(&t, c, 64).unwrap(), Some(72));
    assert_eq!(checked_working_size(&t, c, usize::MAX).unwrap(), None);
    assert!(matches!(required_working_size(&t, GraphNodeId(9), 1), Err(NodeError::NodeNotFound(_))));
}

#[test]
fn plan_local_inputs_reports_each_source_kind() {
    let mut t: Topology<()> = Topology::new();
    let a = t.add_node((), node("A", 0, NodeLocality::Local, 0));
    let g = t.add_node((), node("G", 0, NodeLocality::Global { native_resolution: 16 }, 0));
    let mut opt = node("C", 3, NodeLocality::Local, 0);
    opt.inputs[2].required = false;
    let c = t.add_node((), opt);
    t.connect(a, 0, c, 0).unwrap();
    t.connect(g, 0, c, 1).unwrap();
    let mut cache: Cache<u8> = Cache::new();
    assert!(matches!(plan_local_inputs(&t, &cache, c), Err(NodeError::NodeNotEvaluated(id)) if id == g));
    cache.set(g, EvalScope::Global(16), 1);
    let plan = plan_local_inputs(&t, &cache, c).unwrap();
    assert_eq!(
        plan,
        vec![
            ResolvedInput::Local { ancestor: a, socket: 0 },
            ResolvedInput::Global { ancestor: g, native_resolution: 16, socket: 0 },
            ResolvedInput::Neutral,
        ]
    );
    let d = t.add_node((), node("D", 1, NodeLocality::Local, 0));
    match plan_local_inputs(&t, &cache, d) {
        Err(NodeError::InputNotConnected { node_id, node, socket }) => {
            assert_eq!(node_id, d);
            assert_eq!(node, "D");
            assert_eq!(socket, "In");
        },
        other => panic!("unexpected {:?}", other),
    }
}

#[test]
fn cache_keeps_one_state_per_node_and_scope() {
    let mut cache: Cache<&str> = Cache::new();
    let a = GraphNodeId(0);
    let b = GraphNodeId(1);
    cache.mark_processing(a, EvalScope::Chunk(ChunkCoord(0, 0)));
    assert!(cache.is_processing(a, EvalScope::Chunk(ChunkCoord(0, 0))));
    assert!(cache.get(a, EvalScope::Chunk(ChunkCoord(0, 0))).is_none());
    let u1 = cache.set(a, EvalScope::Chunk(ChunkCoord(0, 0)), "a0");
    let u2 = cache.set(a, EvalScope::Global(8), "ag");
    let u3 = cache.set(b, EvalScope::Chunk(ChunkCoord(1, 0)), "b1");
    assert_eq!((u1, u2, u3), (1, 2, 3));
    assert_eq!(cache.get(a, EvalScope::Chunk(ChunkCoord(0, 0))), Some((1, &"a0")));
    assert!(!cache.is_processing(a, EvalScope::Chunk(ChunkCoord(0, 0))));
    cache.clear_all_chunks();
    assert!(cache.get(a, EvalScope::Chunk(ChunkCoord(0, 0))).is_none());
    assert_eq!(cache.get(a, EvalScope::Global(8)), Some((2, &"ag")));
    cache.mark_dirty(a);
    assert!(cache.get(a, EvalScope::Global(8)).is_none());
    assert_eq!(cache.entry_count(), 0);
    assert_eq!(cache.set(b, EvalScope::Global(8), "bg"), 4);
}

#[test]
fn next_to_spawn_walks_ancestors_until_all_are_cached() {
    let mut t: Topology<()> = Topology::new();
    let a = t.add_node((), node("A", 0, NodeLocality::Local, 0));
    let b = t.add_node((), node("B", 1, NodeLocality::Local, 0));
    t.connect(a, 0, b, 0).unwrap();
    let grid = ChunkGrid::new(2, 1, 8);
    let mut cache: Cache<u8> = Cache::new();
    assert_eq!(next_to_spawn(&t, &grid, &cache, b).unwrap(), Some(a));
    cache.set(a, EvalScope::Chunk(ChunkCoord(0, 0)), 0);
    assert_eq!(next_to_spawn(&t, &grid, &cache, b).unwrap(), Some(a));
    cache.set(a, EvalScope::Chunk(ChunkCoord(1, 0)), 0);
    assert_eq!(next_to_spawn(&t, &grid, &cache, b).unwrap(), Some(b));
    cache.set(b, EvalScope::Chunk(ChunkCoord(0, 0)), 0);
    cache.set(b, EvalScope::Chunk(ChunkCoord(1, 0)), 0);
    assert_eq!(next_to_spawn(&t, &grid, &cache, b).unwrap(), None);
}

#[test]
fn processor_drives_a_local_chain_to_a_gathered_result() {
    let mut t: Topology<()> = Topology::new();
    let a = t.add_node((), node("A", 0, NodeLocality::Local, 0));
    let b = t.add_node((), node("B", 1, NodeLocality::Local, 0));
    t.connect(a, 0, b, 0).unwrap();
    let grid = ChunkGrid::new(2, 1, 8);
    let mut cache: Cache<u32> = Cache::new();
    let mut p: Processor<u32> = Processor::new();
    assert!(!p.is_active());

    let d = p.decide(&t, &grid, &cache, b).unwrap();
    assert_eq!(d, Decision::SpawnLocal { node_id: a, inputs: vec![] });
    p.begin_local(a, grid.coords(), &mut cache);
    assert!(p.is_active());
    assert!(cache.is_processing(a, EvalScope::Chunk(ChunkCoord(1, 0))));
    assert_eq!(p.decide(&t, &grid, &cache, b).unwrap(), Decision::Poll);

    assert!(p.runs_per_chunk());
    assert_eq!((p.pending_len(), p.done_len()), (2, 0));
    p.chunk_finished(ChunkCoord(1, 0), Ok(11), &mut cache).unwrap();
    assert!(p.is_pending(ChunkCoord(0, 0)));
    assert!(!p.is_pending(ChunkCoord(1, 0)));
    assert_eq!((p.pending_len(), p.done_len()), (1, 1));
    p.chunk_finished(ChunkCoord(0, 0), Ok(10), &mut cache).unwrap();
    assert_eq!((p.pending_len(), p.done_len()), (0, 2));
    p.commit(&mut cache);
    assert!(!p.runs_per_chunk());
    assert!(!p.is_active());
    // committed in the order they finished
    assert_eq!(cache.get(a, EvalScope::Chunk(ChunkCoord(1, 0))), Some((1, &11)));
    assert_eq!(cache.get(a, EvalScope::Chunk(ChunkCoord(0, 0))), Some((2, &10)));

    let d = p.decide(&t, &grid, &cache, b).unwrap();
    assert_eq!(d, Decision::SpawnLocal { node_id: b, inputs: vec![ResolvedInput::Local { ancestor: a, socket: 0 }] });
    p.begin_local(b, grid.coords(), &mut cache);
    p.chunk_finished(ChunkCoord(0, 0), Ok(20), &mut cache).unwrap();
    p.chunk_finished(ChunkCoord(1, 0), Ok(21), &mut cache).unwrap();
    p.commit(&mut cache);
    assert_eq!(p.decide(&t, &grid, &cache, b).unwrap(), Decision::Gather);

    match gather(&t, &grid, &cache, b).unwrap() {
        Gathered::Local(per_chunk) => {
            assert_eq!(per_chunk, vec![(ChunkCoord(0, 0), 3, &20), (ChunkCoord(1, 0), 4, &21)]);
        },
        Gathered::Global { .. } => panic!("a local node gathers per chunk"),
    }
}

#[test]
fn re_dirtying_the_active_node_cancels_it() {
    let mut t: Topology<()> = Topology::new();
    let a = t.add_node((), node("A", 0, NodeLocality::Local, 0));
    let grid = ChunkGrid::single(4);
    let mut cache: Cache<u32> = Cache::new();
    let mut p: Processor<u32> = Processor::new();
    p.begin_local(a, grid.coords(), &mut cache);
    assert!(p.active_is_live(&cache));
    cache.mark_dirty(a);
    assert!(!p.active_is_live(&cache));
    let d = p.decide(&t, &grid, &cache, a).unwrap();
    assert_eq!(d, Decision::SpawnLocal { node_id: a, inputs: vec![] });
    assert!(!p.is_active());
}

#[test]
fn a_failed_chunk_abandons_the_node() {
    let mut t: Topology<()> = Topology::new();
    let a = t.add_node((), node("A", 0, NodeLocality::Local, 0));
    let grid = ChunkGrid::new(2, 1, 4);
    let mut cache: Cache<u32> = Cache::new();
    let mut p: Processor<u32> = Processor::new();
    p.begin_local(a, grid.coords(), &mut cache);
    let r = p.chunk_finished(ChunkCoord(0, 0), Err(NodeError::from_message("boom")), &mut cache);
    assert!(matches!(r, Err(NodeError::ProcessingFailed(m)) if m == "boom"));
    assert!(!p.is_active());
    assert!(!cache.is_processing(a, EvalScope::Chunk(ChunkCoord(1, 0))));
    assert_eq!(cache.entry_count(), 0);
}

#[test]
fn a_global_node_runs_one_pass() {
    let mut t: Topology<()> = Topology::new();
    let g = t.add_node((), node("G", 0, NodeLocality::Global { native_resolution: 32 }, 0));
    let grid = ChunkGrid::new(2, 2, 8);
    let mut cache: Cache<u32> = Cache::new();
    let mut p: Processor<u32> = Processor::new();
    assert_eq!(p.decide(&t, &grid, &cache, g).unwrap(), Decision::SpawnGlobal { node_id: g, native_resolution: 32 });
    p.begin_global(g, 32, &mut cache);
    assert!(p.is_active() && !p.runs_per_chunk());
    assert_eq!(p.pending_len(), 0);
    assert!(cache.is_processing(g, EvalScope::Global(32)));
    assert_eq!(p.global_finished(Ok(5), &mut cache).unwrap(), 1);
    assert_eq!(p.decide(&t, &grid, &cache, g).unwrap(), Decision::Gather);
    match gather(&t, &grid, &cache, g).unwrap() {
        Gathered::Global { uuid, tiles, native_resolution } => {
            assert_eq!((uuid, *tiles, native_resolution), (1, 5, 32));
        },
        Gathered::Local(_) => panic!("a global node gathers its single pass"),
    }
    p.begin_global(g, 32, &mut cache);
    assert!(p.global_finished(Err(NodeError::CyclicGraph), &mut cache).is_err());
    assert!(matches!(gather(&t, &grid, &cache, g), Err(NodeError::NodeNotEvaluated(id)) if id == g));
}

#[test]
fn gather_without_cached_chunks_is_not_evaluated() {
    let mut t: Topology<()> = Topology::new();
    let a = t.add_node((), node("A", 0, NodeLocality::Local, 0));
    let grid = ChunkGrid::new(1, 2, 4);
    let mut cache: Cache<u32> = Cache::new();
    cache.set(a, EvalScope::Chunk(ChunkCoord(0, 0)), 1);
    assert!(matches!(gather(&t, &grid, &cache, a), Err(NodeError::NodeNotEvaluated(_))));
    assert!(matches!(gather(&t, &grid, &cache, GraphNodeId(3)), Err(NodeError::NodeNotFound(_))));
}

#[test]
fn sync_pool_size_resizes_and_drops_chunk_entries() {
    let mut t: Topology<()> = Topology::new();
    let a = t.add_node((), node("A", 0, NodeLocality::Local, 3));
    let g = t.add_node((), node("G", 0, NodeLocality::Global { native_resolution: 16 }, 3));
    let grid = ChunkGrid::single(8);
    let mut cache: Cache<u32> = Cache::new();
    cache.set(a, EvalScope::Chunk(ChunkCoord(0, 0)), 1);
    cache.set(g, EvalScope::Global(16), 2);
    assert_eq!(sync_pool_size(&t, &grid, 12, &mut cache, a).unwrap(), None);
    assert!(cache.get(a, EvalScope::Chunk(ChunkCoord(0, 0))).is_some());
    assert_eq!(sync_pool_size(&t, &grid, 8, &mut cache, a).unwrap(), Some(12));
    assert!(cache.get(a, EvalScope::Chunk(ChunkCoord(0, 0))).is_none());
    assert!(cache.get(g, EvalScope::Global(16)).is_some());
    assert_eq!(sync_pool_size(&t, &grid, 8, &mut cache, g).unwrap(), None);
}

#[test]
fn an_entry_reports_its_newest_output() {
    let global: CacheEntry<u32> = CacheEntry::Global(7, 1);
    assert_eq!(global.newest(), 7);
    let mut chunks = AssocMap::new();
    let empty: CacheEntry<u32> = CacheEntry::Local(AssocMap::new());
    assert_eq!(empty.newest(), 0);
    chunks.insert(ChunkCoord(0, 0), (3, 30));
    chunks.insert(ChunkCoord(1, 0), (9, 90));
    chunks.insert(ChunkCoord(0, 1), (4, 40));
    let local: CacheEntry<u32> = CacheEntry::Local(chunks);
    assert_eq!(local.newest(), 9);
}
