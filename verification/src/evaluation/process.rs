//! The decisions that drive a node's evaluation forward. The driver owns the running tasks; each
//! time it asks `Processor::decide` what to do next, it spawns what it is told to, feeds back the
//! results of finished tasks, and gathers the node's output once everything it needs is cached.

use vstd::prelude::*;

use crate::evaluation::cache::{Cache, CacheState, CacheUuid, EvalScope, ScopedNode};
use crate::evaluation::plan::{
    all_ready,
    first_unready,
    is_topological_order,
    lemma_ancestor_live,
    local_plan,
    local_plan_fails,
    next_to_spawn,
    plan_local_inputs,
    required_working_size,
    working_size,
    ResolvedInput,
};
use crate::graph::topology::{GraphNodeId, Topology};
use crate::node::{NodeError, NodeLocality};
use crate::tiling::grid::{ChunkCoord, ChunkGrid};

verus! {

/// What one evaluated node is waiting on.
pub enum ActiveWork<R> {
    /// One task per chunk: the `pending` chunks are still running, the `done` ones have their tiles.
    Local { pending: Vec<ChunkCoord>, done: Vec<(ChunkCoord, R)> },
    /// The single whole-terrain pass at `native_resolution`.
    Global { native_resolution: usize },
}

/// The node being evaluated and what it is waiting on.
pub struct ActiveNode<R> {
    pub node_id: GraphNodeId,
    pub work: ActiveWork<R>,
}

/// What the driver of an evaluation does next.
#[derive(Debug, Clone, PartialEq, Eq)]
pub enum Decision {
    /// A node's tasks are running: poll them, and feed back those that finished.
    Poll,
    /// Spawn one task per chunk of the grid for the `Local` node `node_id`, fed as `inputs` says.
    SpawnLocal { node_id: GraphNodeId, inputs: Vec<ResolvedInput> },
    /// Spawn the whole-terrain pass of the `Global` node `node_id`.
    SpawnGlobal { node_id: GraphNodeId, native_resolution: usize },
    /// Every ancestor is cached: gather the node's output.
    Gather,
}

/// The cache entries of `done`, committed one after the other under the ids following `base`.
pub open spec fn committed<R>(
    m: Map<ScopedNode, CacheState<R>>,
    node: GraphNodeId,
    done: Seq<(ChunkCoord, R)>,
    base: CacheUuid,
) -> Map<ScopedNode, CacheState<R>>
    decreases done.len(),
{
    if done.len() == 0 {
        m
    } else {
        committed(m, node, done.drop_last(), base).insert(
            ScopedNode(node, EvalScope::Chunk(done.last().0)),
            CacheState::Cached((base + done.len()) as CacheUuid, done.last().1),
        )
    }
}

/// Committing caches every finished chunk: each has a cached entry afterwards, and where no chunk
/// finished twice, the `j`-th is cached with its own tiles under the `j + 1`-th id after `base`.
/// Every entry of another node, or of a chunk that did not finish, stays as it was.
pub proof fn lemma_commit_caches_every_chunk<R>(
    m: Map<ScopedNode, CacheState<R>>,
    node: GraphNodeId,
    done: Seq<(ChunkCoord, R)>,
    base: CacheUuid,
)
    ensures
        forall|j: int| 0 <= j < done.len() ==> {
            &&& committed(m, node, done, base).contains_key(ScopedNode(node, EvalScope::Chunk(#[trigger] done[j].0)))
            &&& committed(m, node, done, base)[ScopedNode(node, EvalScope::Chunk(done[j].0))] is Cached
        },
        (forall|i: int, j: int| 0 <= i < done.len() && 0 <= j < done.len() && i != j ==> done[i].0 != done[j].0)
            ==> forall|j: int| 0 <= j < done.len() ==> committed(m, node, done, base)[ScopedNode(
            node,
            EvalScope::Chunk(#[trigger] done[j].0),
        )] == CacheState::Cached((base + j + 1) as CacheUuid, done[j].1),
        forall|k: ScopedNode|
            (forall|j: int| 0 <= j < done.len() ==> k != ScopedNode(node, EvalScope::Chunk(#[trigger] done[j].0)))
                ==> (#[trigger] committed(m, node, done, base).contains_key(k) <==> m.contains_key(k)) && (m.contains_key(k)
                ==> committed(m, node, done, base)[k] == m[k]),
    decreases done.len(),
{
    if done.len() > 0 {
        let d = done.drop_last();
        lemma_commit_caches_every_chunk(m, node, d, base);
        let last = done.last();
        let c = committed(m, node, d, base);
        assert(committed(m, node, done, base) == c.insert(
            ScopedNode(node, EvalScope::Chunk(last.0)),
            CacheState::Cached((base + done.len()) as CacheUuid, last.1),
        ));
        assert forall|j: int| 0 <= j < done.len() implies {
            &&& committed(m, node, done, base).contains_key(ScopedNode(node, EvalScope::Chunk(#[trigger] done[j].0)))
            &&& committed(m, node, done, base)[ScopedNode(node, EvalScope::Chunk(done[j].0))] is Cached
        } by {
            if j < done.len() - 1 {
                assert(d[j] == done[j]);
            }
        }
        if forall|i: int, j: int| 0 <= i < done.len() && 0 <= j < done.len() && i != j ==> done[i].0 != done[j].0 {
            assert forall|j: int| 0 <= j < done.len() implies committed(m, node, done, base)[ScopedNode(
                node,
                EvalScope::Chunk(#[trigger] done[j].0),
            )] == CacheState::Cached((base + j + 1) as CacheUuid, done[j].1) by {
                if j < done.len() - 1 {
                    assert(d[j] == done[j]);
                    assert(done[j].0 != done[done.len() - 1].0);
                    assert forall|a: int, b: int| 0 <= a < d.len() && 0 <= b < d.len() && a != b implies d[a].0 != d[b].0 by {
                        assert(d[a] == done[a] && d[b] == done[b]);
                    }
                }
            }
        }
        assert forall|k: ScopedNode|
            (forall|j: int| 0 <= j < done.len() ==> k != ScopedNode(node, EvalScope::Chunk(#[trigger] done[j].0)))
                implies (#[trigger] committed(m, node, done, base).contains_key(k) <==> m.contains_key(k)) && (
            m.contains_key(k) ==> committed(m, node, done, base)[k] == m[k]) by {
            assert(k != ScopedNode(node, EvalScope::Chunk(done[done.len() - 1].0)));
            assert forall|j: int| 0 <= j < d.len() implies k != ScopedNode(node, EvalScope::Chunk(#[trigger] d[j].0)) by {
                assert(d[j] == done[j]);
                assert(k != ScopedNode(node, EvalScope::Chunk(done[j].0)));
            }
        }
    }
}

/// `m` with every chunk of `node` in `chunks` marked as being evaluated.
pub open spec fn marked_processing<R>(m: Map<ScopedNode, CacheState<R>>, node: GraphNodeId, chunks: Seq<ChunkCoord>) -> Map<
    ScopedNode,
    CacheState<R>,
>
    decreases chunks.len(),
{
    if chunks.len() == 0 {
        m
    } else {
        marked_processing(m, node, chunks.drop_last()).insert(ScopedNode(node, EvalScope::Chunk(chunks.last())), CacheState::Processing)
    }
}

/// `m` without any entry of `node`.
pub open spec fn without_node<R>(m: Map<ScopedNode, CacheState<R>>, node: GraphNodeId) -> Map<ScopedNode, CacheState<R>> {
    m.restrict(m.dom().filter(|k: ScopedNode| k.0 != node))
}

/// `r` is what the driver of an evaluation of `root` does next once nothing is under way: spawn
/// the first ancestor not fully cached, or gather `root` once every ancestor is.
pub open spec fn next_step<T, R>(
    t: Topology<T>,
    grid: ChunkGrid,
    cache: Cache<R>,
    root: GraphNodeId,
    r: Result<Decision, NodeError>,
) -> bool {
    if !t.live(root) {
        r == Err::<Decision, NodeError>(NodeError::NodeNotFound(root))
    } else {
        match r {
            Ok(Decision::Gather) => all_ready(t, grid, cache, root),
            Ok(Decision::SpawnLocal { node_id: c, inputs }) => first_unready(t, grid, cache, root, c) && t.shape(c).locality
                == NodeLocality::Local && local_plan(t, cache, c, inputs@),
            Ok(Decision::SpawnGlobal { node_id: c, native_resolution }) => first_unready(t, grid, cache, root, c)
                && t.shape(c).locality == (NodeLocality::Global { native_resolution }),
            Ok(Decision::Poll) => false,
            Err(e) => (e == NodeError::CyclicGraph && forall|o: Seq<GraphNodeId>| !is_topological_order(t, root, o))
                || exists|c: GraphNodeId|
                #![trigger first_unready(t, grid, cache, root, c)]
                first_unready(t, grid, cache, root, c) && t.shape(c).locality == NodeLocality::Local && local_plan_fails(
                    t,
                    cache,
                    c,
                    e,
                ),
        }
    }
}

/// A node's cached output, still at its working size: each chunk's entry for a `Local` node, in
/// the grid's order, or the single whole-terrain pass of a `Global` one.
pub enum Gathered<'a, R> {
    Local(Vec<(ChunkCoord, CacheUuid, &'a R)>),
    Global { uuid: CacheUuid, tiles: &'a R, native_resolution: usize },
}

/// Collects `node_id`'s cached output; fails with `NodeNotEvaluated` when some of it is missing.
pub fn gather<'a, T, R>(topology: &Topology<T>, chunk_grid: &ChunkGrid, cache: &'a Cache<R>, node_id: GraphNodeId) -> (r: Result<
    Gathered<'a, R>,
    NodeError,
>)
    requires
        topology.wf(),
        cache.wf(),
        chunk_grid.chunk_count() <= usize::MAX,
    ensures
        !topology.live(node_id) ==> (r matches Err(e) && e == NodeError::NodeNotFound(node_id)),
        topology.live(node_id) ==> match topology.shape(node_id).locality {
            NodeLocality::Global { native_resolution: nr } => match r {
                Ok(Gathered::Global { uuid, tiles, native_resolution }) => native_resolution == nr && cache.cached(
                    node_id,
                    EvalScope::Global(nr),
                ) == Some((uuid, *tiles)),
                Ok(Gathered::Local(_)) => false,
                Err(e) => e == NodeError::NodeNotEvaluated(node_id) && cache.cached(node_id, EvalScope::Global(nr)) is None,
            },
            NodeLocality::Local => match r {
                Ok(Gathered::Local(v)) => v@.len() == chunk_grid.coord_seq().len() && forall|k: int|
                    0 <= k < v@.len() ==> (#[trigger] v@[k]).0 == chunk_grid.coord_seq()[k] && cache.cached(
                        node_id,
                        EvalScope::Chunk(chunk_grid.coord_seq()[k]),
                    ) == Some((v@[k].1, *v@[k].2)),
                Ok(Gathered::Global { .. }) => false,
                Err(e) => e == NodeError::NodeNotEvaluated(node_id) && exists|k: int|
                    0 <= k < chunk_grid.coord_seq().len() && (#[trigger] cache.cached(
                        node_id,
                        EvalScope::Chunk(chunk_grid.coord_seq()[k]),
                    )) is None,
            },
        },
{
    let shape = match topology.shape_of(node_id) {
        Ok(s) => s,
        Err(e) => return Err(e),
    };
    match shape.locality {
        NodeLocality::Global { native_resolution } => match cache.get(node_id, EvalScope::Global(native_resolution)) {
            Some((uuid, tiles)) => Ok(Gathered::Global { uuid, tiles, native_resolution }),
            None => Err(NodeError::NodeNotEvaluated(node_id)),
        },
        NodeLocality::Local => {
            let coords = chunk_grid.coords();
            let mut per_chunk: Vec<(ChunkCoord, CacheUuid, &'a R)> = Vec::new();
            let mut k: usize = 0;
            while k < coords.len()
                invariant
                    cache.wf(),
                    topology.live(node_id),
                    topology.shape(node_id).locality == NodeLocality::Local,
                    coords@ == chunk_grid.coord_seq(),
                    k <= coords@.len(),
                    per_chunk@.len() == k,
                    forall|q: int|
                        0 <= q < k ==> (#[trigger] per_chunk@[q]).0 == chunk_grid.coord_seq()[q] && cache.cached(
                            node_id,
                            EvalScope::Chunk(chunk_grid.coord_seq()[q]),
                        ) == Some((per_chunk@[q].1, *per_chunk@[q].2)),
                decreases coords@.len() - k,
            {
                let chunk = coords[k];
                match cache.get(node_id, EvalScope::Chunk(chunk)) {
                    Some((uuid, tiles)) => per_chunk.push((chunk, uuid, tiles)),
                    None => {
                        proof {
                            assert(cache.cached(node_id, EvalScope::Chunk(chunk_grid.coord_seq()[k as int])) is None);
                        }
                        return Err(NodeError::NodeNotEvaluated(node_id));
                    },
                }
                k = k + 1;
            }
            Ok(Gathered::Local(per_chunk))
        },
    }
}

/// Before evaluating the `Local` node `node_id`, the shared tile pool must have its working size.
/// When it has another length than `pool_len`, every chunk-scoped cache entry - made at the old
/// size - is dropped, and the length to rebuild the pool with is returned. A `Global` node brings
/// its own pool, so nothing changes for it.
pub fn sync_pool_size<T, R>(
    topology: &Topology<T>,
    chunk_grid: &ChunkGrid,
    pool_len: usize,
    cache: &mut Cache<R>,
    node_id: GraphNodeId,
) -> (r: Result<Option<usize>, NodeError>)
    requires
        topology.wf(),
        old(cache).wf(),
        topology.live(node_id) && topology.shape(node_id).locality == NodeLocality::Local ==> working_size(
            *topology,
            node_id,
            chunk_grid.spec_tile_size(),
        ) <= usize::MAX,
    ensures
        final(cache).wf(),
        final(cache).spec_last_uuid() == old(cache).spec_last_uuid(),
        !topology.live(node_id) ==> r == Err::<Option<usize>, NodeError>(NodeError::NodeNotFound(node_id)),
        topology.live(node_id) ==> r is Ok,
        r matches Ok(Some(n)) ==> {
            &&& topology.shape(node_id).locality == NodeLocality::Local
            &&& n == working_size(*topology, node_id, chunk_grid.spec_tile_size())
            &&& n != pool_len
            &&& final(cache).state_map() == old(cache).state_map().restrict(
                old(cache).state_map().dom().filter(|k: ScopedNode| k.1 is Global),
            )
        },
        r matches Ok(None) ==> {
            &&& final(cache).state_map() == old(cache).state_map()
            &&& topology.shape(node_id).locality == NodeLocality::Local ==> working_size(
                *topology,
                node_id,
                chunk_grid.spec_tile_size(),
            ) == pool_len
        },
        r is Err ==> final(cache).state_map() == old(cache).state_map(),
{
    let shape = match topology.shape_of(node_id) {
        Ok(s) => s,
        Err(e) => return Err(e),
    };
    if let NodeLocality::Global { .. } = shape.locality {
        return Ok(None);
    }
    let required = match required_working_size(topology, node_id, chunk_grid.tile_size()) {
        Ok(n) => n,
        Err(e) => return Err(e),
    };
    if required != pool_len {
        cache.clear_all_chunks();
        return Ok(Some(required));
    }
    Ok(None)
}

/// Walks a node's dirty ancestors in topological order, one node at a time, until the node itself
/// is fully cached.
pub struct Processor<R> {
    active: Option<ActiveNode<R>>,
}

impl<R> Processor<R> {
    /// The node being evaluated, if any.
    pub closed spec fn active_node(&self) -> Option<GraphNodeId> {
        match self.active {
            Some(a) => Some(a.node_id),
            None => None,
        }
    }

    /// Whether the node being evaluated runs chunk by chunk.
    pub closed spec fn is_local(&self) -> bool {
        self.active matches Some(a) && a.work is Local
    }

    /// The chunks whose tasks are still running, in the order they were spawned.
    pub closed spec fn pending(&self) -> Seq<ChunkCoord> {
        match self.active {
            Some(a) => match a.work {
                ActiveWork::Local { pending, .. } => pending@,
                ActiveWork::Global { .. } => Seq::empty(),
            },
            None => Seq::empty(),
        }
    }

    /// The chunks whose tasks finished, with their tiles, in the order they finished.
    pub closed spec fn done(&self) -> Seq<(ChunkCoord, R)> {
        match self.active {
            Some(a) => match a.work {
                ActiveWork::Local { done, .. } => done@,
                ActiveWork::Global { .. } => Seq::empty(),
            },
            None => Seq::empty(),
        }
    }

    /// The resolution of the whole-terrain pass being evaluated.
    pub closed spec fn global_resolution(&self) -> usize {
        match self.active {
            Some(a) => match a.work {
                ActiveWork::Global { native_resolution } => native_resolution,
                ActiveWork::Local { .. } => 0,
            },
            None => 0,
        }
    }

    /// The evaluation under way is still wanted: re-dirtying a node mid-flight drops its
    /// `Processing` cache entries, which is the cancellation signal. A local evaluation is judged
    /// by its first pending chunk, or else its first finished one.
    pub open spec fn live_in(&self, cache: Cache<R>) -> bool {
        match self.active_node() {
            None => false,
            Some(n) => if self.is_local() {
                if self.pending().len() > 0 {
                    cache.processing(n, EvalScope::Chunk(self.pending()[0]))
                } else if self.done().len() > 0 {
                    cache.processing(n, EvalScope::Chunk(self.done()[0].0))
                } else {
                    true
                }
            } else {
                cache.processing(n, EvalScope::Global(self.global_resolution()))
            },
        }
    }

    pub fn new() -> (p: Self)
        ensures
            p.active_node() is None,
    {
        Processor { active: None }
    }

    pub fn is_active(&self) -> (r: bool)
        ensures
            r == self.active_node() is Some,
    {
        self.active.is_some()
    }

    /// How many chunks of the node under way have finished.
    pub fn done_len(&self) -> (n: usize)
        ensures
            n == self.done().len(),
    {
        match &self.active {
            Some(a) => match &a.work {
                ActiveWork::Local { done, .. } => done.len(),
                ActiveWork::Global { .. } => 0,
            },
            None => 0,
        }
    }

    /// Whether the node under way is evaluated chunk by chunk.
    pub fn runs_per_chunk(&self) -> (r: bool)
        ensures
            r == self.is_local(),
    {
        match &self.active {
            Some(a) => match &a.work {
                ActiveWork::Local { .. } => true,
                ActiveWork::Global { .. } => false,
            },
            None => false,
        }
    }

    /// How many chunks of the node under way are still running.
    pub fn pending_len(&self) -> (n: usize)
        ensures
            n == self.pending().len(),
    {
        match &self.active {
            Some(a) => match &a.work {
                ActiveWork::Local { pending, .. } => pending.len(),
                ActiveWork::Global { .. } => 0,
            },
            None => 0,
        }
    }

    /// Whether the task of `chunk` is still running.
    pub fn is_pending(&self, chunk: ChunkCoord) -> (r: bool)
        ensures
            r == self.pending().contains(chunk),
    {
        match &self.active {
            Some(a) => match &a.work {
                ActiveWork::Local { pending, .. } => {
                    let mut k: usize = 0;
                    while k < pending.len()
                        invariant
                            k <= pending@.len(),
                            pending@ == self.pending(),
                            forall|j: int| 0 <= j < k ==> pending@[j] != chunk,
                        decreases pending@.len() - k,
                    {
                        if pending[k] == chunk {
                            return true;
                        }
                        k = k + 1;
                    }
                    false
                },
                ActiveWork::Global { .. } => false,
            },
            None => false,
        }
    }

    /// Whether the evaluation under way is still wanted (see `live_in`).
    pub fn active_is_live(&self, cache: &Cache<R>) -> (r: bool)
        requires
            cache.wf(),
        ensures
            r == self.live_in(*cache),
    {
        match &self.active {
            None => false,
            Some(a) => match &a.work {
                ActiveWork::Global { native_resolution } => cache.is_processing(a.node_id, EvalScope::Global(*native_resolution)),
                ActiveWork::Local { pending, done } => {
                    if pending.len() > 0 {
                        cache.is_processing(a.node_id, EvalScope::Chunk(pending[0]))
                    } else if done.len() > 0 {
                        cache.is_processing(a.node_id, EvalScope::Chunk(done[0].0))
                    } else {
                        true
                    }
                },
            },
        }
    }

    /// Starts evaluating the `Local` node `node_id`, one task per chunk of `chunks`, each marked
    /// as being evaluated.
    pub fn begin_local(&mut self, node_id: GraphNodeId, chunks: Vec<ChunkCoord>, cache: &mut Cache<R>)
        requires
            old(cache).wf(),
        ensures
            final(cache).wf(),
            final(cache).state_map() == marked_processing(old(cache).state_map(), node_id, chunks@),
            final(cache).spec_last_uuid() == old(cache).spec_last_uuid(),
            final(self).active_node() == Some(node_id),
            final(self).is_local(),
            final(self).pending() == chunks@,
            final(self).done() == Seq::<(ChunkCoord, R)>::empty(),
    {
        let mut k: usize = 0;
        while k < chunks.len()
            invariant
                cache.wf(),
                k <= chunks@.len(),
                cache.state_map() == marked_processing(old(cache).state_map(), node_id, chunks@.take(k as int)),
                cache.spec_last_uuid() == old(cache).spec_last_uuid(),
            decreases chunks@.len() - k,
        {
            cache.mark_processing(node_id, EvalScope::Chunk(chunks[k]));
            proof {
                assert(chunks@.take(k + 1).drop_last() == chunks@.take(k as int));
            }
            k = k + 1;
        }
        proof {
            assert(chunks@.take(chunks@.len() as int) == chunks@);
        }
        self.active = Some(ActiveNode { node_id, work: ActiveWork::Local { pending: chunks, done: Vec::new() } });
    }

    /// Starts the whole-terrain pass of the `Global` node `node_id`, marked as being evaluated.
    pub fn begin_global(&mut self, node_id: GraphNodeId, native_resolution: usize, cache: &mut Cache<R>)
        requires
            old(cache).wf(),
        ensures
            final(cache).wf(),
            final(cache).state_map() == old(cache).state_map().insert(
                ScopedNode(node_id, EvalScope::Global(native_resolution)),
                CacheState::Processing,
            ),
            final(cache).spec_last_uuid() == old(cache).spec_last_uuid(),
            final(self).active_node() == Some(node_id),
            !final(self).is_local(),
            final(self).global_resolution() == native_resolution,
    {
        cache.mark_processing(node_id, EvalScope::Global(native_resolution));
        self.active = Some(ActiveNode { node_id, work: ActiveWork::Global { native_resolution } });
    }

    /// Takes the result of the task of `chunk`. Its tiles wait among the finished chunks; an error
    /// abandons the node, whose cache entries are all dropped, and is passed on.
    pub fn chunk_finished(&mut self, chunk: ChunkCoord, result: Result<R, NodeError>, cache: &mut Cache<R>) -> (r: Result<
        (),
        NodeError,
    >)
        requires
            old(cache).wf(),
            old(self).is_local(),
            old(self).pending().contains(chunk),
        ensures
            final(cache).wf(),
            final(cache).spec_last_uuid() == old(cache).spec_last_uuid(),
            match result {
                Ok(tiles) => {
                    &&& r is Ok
                    &&& final(cache).state_map() == old(cache).state_map()
                    &&& final(self).active_node() == old(self).active_node()
                    &&& final(self).is_local()
                    &&& final(self).pending() == old(self).pending().remove(old(self).pending().index_of_first(chunk).unwrap())
                    &&& final(self).done() == old(self).done().push((chunk, tiles))
                },
                Err(e) => {
                    &&& r == Err::<(), NodeError>(e)
                    &&& final(cache).state_map() == without_node(old(cache).state_map(), old(self).active_node().unwrap())
                    &&& final(self).active_node() is None
                },
            },
    {
        let mut active = self.active.take().unwrap();
        let node_id = active.node_id;
        match result {
            Ok(tiles) => {
                match &mut active.work {
                    ActiveWork::Local { pending, done } => {
                        let ghost p0 = pending@;
                        let mut k: usize = 0;
                        while k < pending.len()
                            invariant
                                k <= pending@.len(),
                                pending@ == p0,
                                p0.contains(chunk),
                                forall|j: int| 0 <= j < k ==> pending@[j] != chunk,
                            ensures
                                k < pending@.len(),
                                pending@[k as int] == chunk,
                                forall|j: int| 0 <= j < k ==> pending@[j] != chunk,
                            decreases pending@.len() - k,
                        {
                            if pending[k] == chunk {
                                break;
                            }
                            k = k + 1;
                        }
                        proof {
                            p0.index_of_first_ensures(chunk);
                            let f = p0.index_of_first(chunk).unwrap();
                            if f < k {
                                assert(p0[f] != chunk);
                            }
                            if k < f {
                                assert(p0[k as int] != chunk);
                            }
                            assert(f == k);
                        }
                        pending.remove(k);
                        done.push((chunk, tiles));
                    },
                    ActiveWork::Global { .. } => {},
                }
                self.active = Some(active);
                Ok(())
            },
            Err(e) => {
                cache.mark_dirty(node_id);
                Err(e)
            },
        }
    }

    /// Takes the result of the whole-terrain pass: its tiles are cached under a fresh id; an error
    /// drops every cache entry of the node and is passed on. Either way the node is done with.
    pub fn global_finished(&mut self, result: Result<R, NodeError>, cache: &mut Cache<R>) -> (r: Result<CacheUuid, NodeError>)
        requires
            old(cache).wf(),
            old(self).active_node() is Some,
            !old(self).is_local(),
            old(cache).spec_last_uuid() < CacheUuid::MAX,
        ensures
            final(cache).wf(),
            final(self).active_node() is None,
            match result {
                Ok(tiles) => {
                    &&& r == Ok::<CacheUuid, NodeError>((old(cache).spec_last_uuid() + 1) as CacheUuid)
                    &&& final(cache).spec_last_uuid() == old(cache).spec_last_uuid() + 1
                    &&& final(cache).state_map() == old(cache).state_map().insert(
                        ScopedNode(old(self).active_node().unwrap(), EvalScope::Global(old(self).global_resolution())),
                        CacheState::Cached((old(cache).spec_last_uuid() + 1) as CacheUuid, tiles),
                    )
                },
                Err(e) => {
                    &&& r == Err::<CacheUuid, NodeError>(e)
                    &&& final(cache).spec_last_uuid() == old(cache).spec_last_uuid()
                    &&& final(cache).state_map() == without_node(old(cache).state_map(), old(self).active_node().unwrap())
                },
            },
    {
        let active = self.active.take().unwrap();
        let native_resolution = match active.work {
            ActiveWork::Global { native_resolution } => native_resolution,
            ActiveWork::Local { .. } => 0,
        };
        match result {
            Ok(tiles) => Ok(cache.set(active.node_id, EvalScope::Global(native_resolution), tiles)),
            Err(e) => {
                cache.mark_dirty(active.node_id);
                Err(e)
            },
        }
    }

    /// Once no chunk is pending, caches every finished chunk's tiles, in the order they finished,
    /// each under a fresh id; the node is then done with.
    pub fn commit(&mut self, cache: &mut Cache<R>)
        requires
            old(cache).wf(),
            old(self).is_local(),
            old(self).pending().len() == 0,
            old(cache).spec_last_uuid() + old(self).done().len() <= CacheUuid::MAX,
        ensures
            final(cache).wf(),
            final(cache).spec_last_uuid() == old(cache).spec_last_uuid() + old(self).done().len(),
            final(cache).state_map() == committed(
                old(cache).state_map(),
                old(self).active_node().unwrap(),
                old(self).done(),
                old(cache).spec_last_uuid(),
            ),
            final(self).active_node() is None,
    {
        let active = self.active.take().unwrap();
        let node_id = active.node_id;
        match active.work {
            ActiveWork::Local { done, .. } => {
                let ghost d0 = done@;
                let ghost m0 = cache.state_map();
                let ghost base = cache.spec_last_uuid();
                let mut done = done;
                let ghost mut i: int = 0;
                while done.len() > 0
                    invariant
                        cache.wf(),
                        0 <= i <= d0.len(),
                        done@ == d0.subrange(i, d0.len() as int),
                        base + d0.len() <= CacheUuid::MAX,
                        cache.spec_last_uuid() == base + i,
                        cache.state_map() == committed(m0, node_id, d0.take(i), base),
                    decreases done@.len(),
                {
                    let (chunk, tiles) = done.remove(0);
                    proof {
                        assert(d0[i] == (chunk, tiles));
                        assert(d0.take(i + 1).drop_last() == d0.take(i));
                        assert(d0.take(i + 1).last() == (chunk, tiles));
                    }
                    cache.set(node_id, EvalScope::Chunk(chunk), tiles);
                    proof {
                        i = i + 1;
                    }
                }
                proof {
                    assert(d0.take(d0.len() as int) == d0);
                }
            },
            ActiveWork::Global { .. } => {},
        }
    }

    /// What the driver of an evaluation of `node_id` does next: poll the node under way while it
    /// is still wanted; otherwise forget it and pick the next step (see `next_step`).
    pub fn decide<T>(&mut self, topology: &Topology<T>, chunk_grid: &ChunkGrid, cache: &Cache<R>, node_id: GraphNodeId) -> (r: Result<
        Decision,
        NodeError,
    >)
        requires
            topology.wf(),
            cache.wf(),
            chunk_grid.chunk_count() <= usize::MAX,
        ensures
            old(self).live_in(*cache) ==> r == Ok::<Decision, NodeError>(Decision::Poll) && *final(self) == *old(self),
            !old(self).live_in(*cache) ==> final(self).active_node() is None && next_step(
                *topology,
                *chunk_grid,
                *cache,
                node_id,
                r,
            ),
    {
        if self.active.is_some() {
            if self.active_is_live(cache) {
                return Ok(Decision::Poll);
            }
            self.active = None;
        }
        let candidate = match next_to_spawn(topology, chunk_grid, cache, node_id) {
            Ok(c) => c,
            Err(e) => return Err(e),
        };
        match candidate {
            None => Ok(Decision::Gather),
            Some(c) => {
                proof {
                    lemma_ancestor_live(*topology, node_id, c);
                }
                let shape = match topology.shape_of(c) {
                    Ok(s) => s,
                    Err(e) => return Err(e),
                };
                match shape.locality {
                    NodeLocality::Local => match plan_local_inputs(topology, cache, c) {
                        Ok(inputs) => Ok(Decision::SpawnLocal { node_id: c, inputs }),
                        Err(e) => Err(e),
                    },
                    NodeLocality::Global { native_resolution } => Ok(Decision::SpawnGlobal { node_id: c, native_resolution }),
                }
            },
        }
    }
}

/// Dropping every cache entry of the node under way cancels it: the processor no longer holds
/// it live, unless it is a local evaluation that has no chunk at all.
pub proof fn lemma_dirtied_node_is_cancelled<R>(p: Processor<R>, cache: Cache<R>, dirtied: Cache<R>)
    requires
        p.active_node() is Some,
        dirtied.state_map() == without_node(cache.state_map(), p.active_node().unwrap()),
        !(p.is_local() && p.pending().len() == 0 && p.done().len() == 0),
    ensures
        !p.live_in(dirtied),
{
}

/// Once committed, every finished chunk is cached, with its tiles, under the id that follows
/// `base` by its position among the finished chunks.
pub proof fn lemma_committed_caches_done<R>(
    m: Map<ScopedNode, CacheState<R>>,
    node: GraphNodeId,
    done: Seq<(ChunkCoord, R)>,
    base: CacheUuid,
    k: int,
)
    requires
        0 <= k < done.len(),
        forall|i: int, j: int| 0 <= i < j < done.len() ==> done[i].0 != done[j].0,
    ensures
        committed(m, node, done, base).contains_key(ScopedNode(node, EvalScope::Chunk(done[k].0))),
        committed(m, node, done, base)[ScopedNode(node, EvalScope::Chunk(done[k].0))] == CacheState::Cached(
            (base + k + 1) as CacheUuid,
            done[k].1,
        ),
    decreases done.len(),
{
    if k < done.len() - 1 {
        let rest = done.drop_last();
        assert(rest[k] == done[k]);
        lemma_committed_caches_done(m, node, rest, base, k);
        assert(done.last().0 != done[k].0);
        assert(ScopedNode(node, EvalScope::Chunk(done.last().0)) != ScopedNode(node, EvalScope::Chunk(done[k].0)));
    }
}

} // verus!
