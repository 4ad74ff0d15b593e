use waterdrop_terrain_generator::evaluation::cache::EvalScope;
use waterdrop_terrain_generator::graph::state::{cache_key_of, CacheKey, EvalCache, NodeState};
use waterdrop_terrain_generator::graph::topology::GraphNodeId;
use waterdrop_terrain_generator::tiling::grid::ChunkCoord;

fn chunk(x: i32, y: i32) -> EvalScope {
    EvalScope::Chunk(ChunkCoord(x, y))
}

#[test]
fn unrecorded_states_read_as_dirty() {
    let c: EvalCache<Vec<f32>, String> = EvalCache::new();
    assert!(matches!(c.state(GraphNodeId(0), chunk(0, 0)), NodeState::Dirty));
    assert!(!c.is_dirty(GraphNodeId(0)));
    assert!(!c.is_baked(GraphNodeId(0)));
}

#[test]
fn states_are_kept_per_node_and_scope() {
    let mut c: EvalCache<Vec<f32>, String> = EvalCache::new();
    let a = GraphNodeId(1);
    c.set(a, chunk(0, 0), NodeState::Cached((CacheKey(7), vec![1.0, 2.0])));
    c.set(a, EvalScope::Global(64), NodeState::Processing);
    match c.state(a, chunk(0, 0)) {
        NodeState::Cached((key, tiles)) => {
            assert_eq!(key, CacheKey(7));
            assert_eq!(tiles, vec![1.0, 2.0]);
        },
        _ => panic!("the chunk was cached"),
    }
    assert!(matches!(c.state(a, EvalScope::Global(64)), NodeState::Processing));
    assert!(matches!(c.state(a, chunk(1, 0)), NodeState::Dirty));
}

#[test]
fn marking_a_node_dirty_touches_only_its_scopes() {
    let mut c: EvalCache<u8, String> = EvalCache::new();
    let (a, b) = (GraphNodeId(1), GraphNodeId(2));
    c.set(a, chunk(0, 0), NodeState::Cached((CacheKey(1), 10)));
    c.set(a, EvalScope::Global(32), NodeState::Baked((CacheKey(2), "a.png".to_string())));
    c.set(b, chunk(0, 0), NodeState::Cached((CacheKey(3), 30)));
    assert!(c.is_baked(a) && !c.is_baked(b));
    assert!(!c.is_dirty(a));
    c.mark_all_dirty(a);
    assert!(c.is_dirty(a) && !c.is_baked(a));
    assert!(matches!(c.state(a, EvalScope::Global(32)), NodeState::Dirty));
    assert!(matches!(c.state(b, chunk(0, 0)), NodeState::Cached((CacheKey(3), 30))));
    c.remove(b);
    assert!(matches!(c.state(b, chunk(0, 0)), NodeState::Dirty));
    assert!(!c.is_dirty(b));
}

#[test]
fn clearing_chunk_states_keeps_whole_terrain_ones() {
    let mut c: EvalCache<u8, String> = EvalCache::new();
    let a = GraphNodeId(0);
    c.set(a, chunk(0, 0), NodeState::Cached((CacheKey(1), 1)));
    c.set(a, EvalScope::Global(16), NodeState::Cached((CacheKey(2), 2)));
    c.clear_chunk_states();
    assert!(matches!(c.state(a, chunk(0, 0)), NodeState::Dirty));
    assert!(matches!(c.state(a, EvalScope::Global(16)), NodeState::Cached((CacheKey(2), 2))));
}

#[test]
fn only_outputs_carry_a_cache_key() {
    assert_eq!(cache_key_of::<u8, String>(&NodeState::Cached((CacheKey(5), 0))), Some(CacheKey(5)));
    assert_eq!(cache_key_of::<u8, String>(&NodeState::Baked((CacheKey(6), String::new()))), Some(CacheKey(6)));
    assert_eq!(cache_key_of::<u8, String>(&NodeState::Dirty), None);
    assert_eq!(cache_key_of::<u8, String>(&NodeState::Processing), None);
}
