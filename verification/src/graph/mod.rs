//! The node graph: its topology, the cached outputs of its nodes, and the processor that drives
//! their evaluation. Every edit drops the cached outputs it may have made stale.

use vstd::prelude::*;

pub mod eval;
pub mod state;
pub mod topology;

pub use topology::{EdgeEntry, GraphNodeId, Topology};

use crate::evaluation::cache::{Cache, ScopedNode};
use crate::evaluation::process::Processor;
use crate::graph::topology::{count_true, lemma_count_false, lemma_count_true_bound, lemma_count_true_set};
use crate::node::{NodeError, NodeLocality, NodeShape};
use crate::sequences::{lemma_drop_last_contains, lemma_push_contains};
use crate::tiling::grid::ChunkGrid;

verus! {

/// `p` walks from `from` downstream, from each live node to one of the nodes its outputs lead to.
pub open spec fn is_downstream_path<T>(t: Topology<T>, from: GraphNodeId, p: Seq<GraphNodeId>) -> bool {
    &&& p.len() > 0
    &&& p[0] == from
    &&& forall|k: int| 0 <= k < p.len() - 1 ==> #[trigger] t.live(p[k]) && t.outputs_of(p[k]).contains(p[k + 1])
}

/// `from` and every node downstream of it: the nodes whose outputs depend on it.
pub open spec fn downstream<T>(t: Topology<T>, from: GraphNodeId) -> Set<GraphNodeId> {
    Set::new(|x: GraphNodeId| exists|p: Seq<GraphNodeId>| #[trigger] is_downstream_path(t, from, p) && p.last() == x)
}

/// `m` without the entries of the nodes in `gone`.
pub open spec fn dropping<V>(m: Map<ScopedNode, V>, gone: Set<GraphNodeId>) -> Map<ScopedNode, V> {
    m.restrict(m.dom().filter(|k: ScopedNode| !gone.contains(k.0)))
}

/// The graph engine: its topology, the cached outputs of its nodes for the chunk grid, and the
/// processor that evaluates them. `T` is the node type, `R` what a node's evaluation yields for
/// one scope.
pub struct NodeGraph<T, R> {
    chunk_grid: ChunkGrid,
    topology: Topology<T>,
    cache: Cache<R>,
    processor: Processor<R>,
    is_processing: bool,
}

impl<T, R> NodeGraph<T, R> {
    pub closed spec fn spec_grid(&self) -> ChunkGrid {
        self.chunk_grid
    }

    pub closed spec fn spec_topology(&self) -> Topology<T> {
        self.topology
    }

    pub closed spec fn spec_cache(&self) -> Cache<R> {
        self.cache
    }

    pub closed spec fn spec_processor(&self) -> Processor<R> {
        self.processor
    }

    pub closed spec fn spec_is_processing(&self) -> bool {
        self.is_processing
    }

    pub open spec fn wf(&self) -> bool {
        &&& self.spec_topology().wf()
        &&& self.spec_cache().wf()
    }

    pub fn new(chunk_grid: ChunkGrid) -> (g: Self)
        ensures
            g.wf(),
            g.spec_grid() == chunk_grid,
            g.spec_topology().slot_count() == 0,
            g.spec_topology().edge_list() == Seq::<EdgeEntry>::empty(),
            g.spec_cache().state_map() == Map::<ScopedNode, crate::evaluation::cache::CacheState<R>>::empty(),
            g.spec_processor().active_node() is None,
            !g.spec_is_processing(),
    {
        NodeGraph {
            chunk_grid,
            topology: Topology::new(),
            cache: Cache::new(),
            processor: Processor::new(),
            is_processing: false,
        }
    }

    pub fn chunk_grid(&self) -> (r: &ChunkGrid)
        ensures
            *r == self.spec_grid(),
    {
        &self.chunk_grid
    }

    /// Replaces the chunk grid; every cached output was made for the old one and is dropped.
    pub fn set_chunk_grid(&mut self, chunk_grid: ChunkGrid)
        requires
            old(self).wf(),
        ensures
            final(self).wf(),
            final(self).spec_grid() == chunk_grid,
            final(self).spec_cache().state_map() == Map::<ScopedNode, crate::evaluation::cache::CacheState<R>>::empty(),
            final(self).spec_topology() == old(self).spec_topology(),
            final(self).spec_processor() == old(self).spec_processor(),
            final(self).spec_is_processing() == old(self).spec_is_processing(),
    {
        self.chunk_grid = chunk_grid;
        self.cache = Cache::new();
    }

    pub fn tile_size(&self) -> (r: usize)
        ensures
            r == self.spec_grid().spec_tile_size(),
    {
        self.chunk_grid.tile_size()
    }

    pub fn topology(&self) -> (r: &Topology<T>)
        ensures
            *r == self.spec_topology(),
    {
        &self.topology
    }

    pub fn cache(&self) -> (r: &Cache<R>)
        ensures
            *r == self.spec_cache(),
    {
        &self.cache
    }

    /// Adds `node`, described by `shape`, unwired, under a fresh id.
    pub fn add_node(&mut self, node: T, shape: NodeShape) -> (id: GraphNodeId)
        requires
            old(self).wf(),
            old(self).spec_topology().slot_count() < usize::MAX,
        ensures
            final(self).wf(),
            old(self).spec_topology().adds_node(&final(self).spec_topology(), id, node, shape),
            final(self).spec_cache().state_map() == dropping(
                old(self).spec_cache().state_map(),
                downstream(final(self).spec_topology(), id),
            ),
            final(self).spec_cache().spec_last_uuid() == old(self).spec_cache().spec_last_uuid(),
            final(self).spec_grid() == old(self).spec_grid(),
            final(self).spec_processor() == old(self).spec_processor(),
            final(self).spec_is_processing() == old(self).spec_is_processing(),
    {
        let id = self.topology.add_node(node, shape);
        self.mark_dirty(id);
        id
    }

    /// Removes `node_id` and every edge touching it, after dropping the cached outputs of the
    /// node and of everything downstream of it.
    pub fn remove_node(&mut self, node_id: GraphNodeId) -> (r: Result<(), NodeError>)
        requires
            old(self).wf(),
        ensures
            final(self).wf(),
            old(self).spec_topology().removes_node(&final(self).spec_topology(), node_id, r),
            final(self).spec_cache().state_map() == dropping(
                old(self).spec_cache().state_map(),
                downstream(old(self).spec_topology(), node_id),
            ),
            final(self).spec_cache().spec_last_uuid() == old(self).spec_cache().spec_last_uuid(),
            final(self).spec_grid() == old(self).spec_grid(),
            final(self).spec_processor() == old(self).spec_processor(),
            final(self).spec_is_processing() == old(self).spec_is_processing(),
    {
        self.mark_dirty(node_id);
        self.topology.remove_node(node_id)
    }

    /// Wires output `from_socket` of `from_node` into input `to_socket` of `to_node` (see
    /// `Topology::connect`), then drops the cached outputs downstream of both ends.
    pub fn connect(&mut self, from_node: GraphNodeId, from_socket: usize, to_node: GraphNodeId, to_socket: usize) -> (r: Result<
        (),
        NodeError,
    >)
        requires
            old(self).wf(),
        ensures
            final(self).wf(),
            old(self).spec_topology().connects(&final(self).spec_topology(), from_node, from_socket, to_node, to_socket, r),
            r is Ok ==> final(self).spec_cache().state_map() == dropping(
                old(self).spec_cache().state_map(),
                downstream(final(self).spec_topology(), to_node).union(downstream(final(self).spec_topology(), from_node)),
            ),
            r is Err ==> final(self).spec_cache() == old(self).spec_cache(),
            final(self).spec_cache().spec_last_uuid() == old(self).spec_cache().spec_last_uuid(),
            final(self).spec_grid() == old(self).spec_grid(),
            final(self).spec_processor() == old(self).spec_processor(),
            final(self).spec_is_processing() == old(self).spec_is_processing(),
    {
        match self.topology.connect(from_node, from_socket, to_node, to_socket) {
            Ok(()) => {},
            Err(e) => return Err(e),
        }
        let ghost m0 = self.cache.state_map();
        self.mark_dirty(to_node);
        self.mark_dirty(from_node);
        proof {
            lemma_dropping_twice(m0, downstream(self.topology, to_node), downstream(self.topology, from_node));
        }
        Ok(())
    }

    /// Removes the edge from output `from_socket` of `from_node` to input `to_socket` of
    /// `to_node` (see `Topology::disconnect`), then drops the cached outputs downstream of both ends.
    pub fn disconnect(&mut self, from_node: GraphNodeId, from_socket: usize, to_node: GraphNodeId, to_socket: usize) -> (r: Result<
        (),
        NodeError,
    >)
        requires
            old(self).wf(),
        ensures
            final(self).wf(),
            old(self).spec_topology().disconnects(&final(self).spec_topology(), from_node, from_socket, to_node, to_socket, r),
            r is Ok ==> final(self).spec_cache().state_map() == dropping(
                old(self).spec_cache().state_map(),
                downstream(final(self).spec_topology(), to_node).union(downstream(final(self).spec_topology(), from_node)),
            ),
            r is Err ==> final(self).spec_cache() == old(self).spec_cache(),
            final(self).spec_cache().spec_last_uuid() == old(self).spec_cache().spec_last_uuid(),
            final(self).spec_grid() == old(self).spec_grid(),
            final(self).spec_processor() == old(self).spec_processor(),
            final(self).spec_is_processing() == old(self).spec_is_processing(),
    {
        match self.topology.disconnect(from_node, from_socket, to_node, to_socket) {
            Ok(()) => {},
            Err(e) => return Err(e),
        }
        let ghost m0 = self.cache.state_map();
        self.mark_dirty(to_node);
        self.mark_dirty(from_node);
        proof {
            lemma_dropping_twice(m0, downstream(self.topology, to_node), downstream(self.topology, from_node));
        }
        Ok(())
    }

    pub fn node(&self, id: GraphNodeId) -> (r: Result<&T, NodeError>)
        requires
            self.wf(),
        ensures
            r is Ok <==> self.spec_topology().live(id),
            r is Err ==> r == Err::<&T, NodeError>(NodeError::NodeNotFound(id)),
            r matches Ok(n) ==> *n == self.spec_topology().instance(id),
    {
        self.topology.node(id)
    }

    /// Mutable access to node `id`, whose cached outputs, and those of everything downstream of
    /// it, are dropped since an edit may change them. An edit that changes the node's label,
    /// locality or kernel size is followed by `refresh_node`.
    pub fn node_mut(&mut self, id: GraphNodeId) -> (r: Result<&mut T, NodeError>)
        requires
            old(self).wf(),
        ensures
            r is Ok <==> old(self).spec_topology().live(id),
            r is Err ==> r == Err::<&mut T, NodeError>(NodeError::NodeNotFound(id)),
            r matches Ok(n) ==> *n == old(self).spec_topology().instance(id),
            r matches Ok(n) ==> final(self).spec_topology().instance(id) == *final(n),
            r is Ok ==> final(self).spec_topology().same_wiring(&old(self).spec_topology()),
            r is Ok ==> forall|i: int|
                0 <= i < old(self).spec_topology().slot_count() && old(self).spec_topology().shape_at(i) is Some && i != id.0
                    ==> #[trigger] final(self).spec_topology().instance_at(i) == old(self).spec_topology().instance_at(i),
            r is Err ==> final(self).spec_topology() == old(self).spec_topology(),
            final(self).spec_cache().state_map() == dropping(
                old(self).spec_cache().state_map(),
                downstream(old(self).spec_topology(), id),
            ),
            final(self).spec_cache().spec_last_uuid() == old(self).spec_cache().spec_last_uuid(),
            final(self).spec_cache().wf(),
            final(self).spec_grid() == old(self).spec_grid(),
            final(self).spec_processor() == old(self).spec_processor(),
            final(self).spec_is_processing() == old(self).spec_is_processing(),
    {
        self.mark_dirty(id);
        self.topology.node_mut(id)
    }

    /// Refreshes what the graph keeps of node `id`'s label, locality and kernel size after an
    /// edit, and drops the cached outputs of the node and of everything downstream of it.
    pub fn refresh_node(&mut self, id: GraphNodeId, label: String, locality: NodeLocality, size: usize) -> (r: Result<(), NodeError>)
        requires
            old(self).wf(),
        ensures
            final(self).wf(),
            old(self).spec_topology().updates_shape(&final(self).spec_topology(), id, label, locality, size, r),
            r is Ok ==> final(self).spec_cache().state_map() == dropping(
                old(self).spec_cache().state_map(),
                downstream(final(self).spec_topology(), id),
            ),
            r is Err ==> final(self).spec_cache() == old(self).spec_cache(),
            final(self).spec_cache().spec_last_uuid() == old(self).spec_cache().spec_last_uuid(),
            final(self).spec_grid() == old(self).spec_grid(),
            final(self).spec_processor() == old(self).spec_processor(),
            final(self).spec_is_processing() == old(self).spec_is_processing(),
    {
        match self.topology.update_shape(id, label, locality, size) {
            Ok(()) => {},
            Err(e) => return Err(e),
        }
        self.mark_dirty(id);
        Ok(())
    }

    /// Every edge currently in the graph, as `(from_node, from_socket, to_node, to_socket)`.
    pub fn edges(&self) -> (r: Vec<(GraphNodeId, usize, GraphNodeId, usize)>)
        ensures
            r@.len() == self.spec_topology().edge_list().len(),
            forall|k: int|
                0 <= k < r@.len() ==> #[trigger] r@[k] == (
                    self.spec_topology().edge_list()[k].from_node,
                    self.spec_topology().edge_list()[k].from_socket,
                    self.spec_topology().edge_list()[k].to_node,
                    self.spec_topology().edge_list()[k].to_socket,
                ),
    {
        self.topology.edges()
    }

    /// The parts an evaluation drives: the topology and chunk grid it reads, and the cache and
    /// processor it updates.
    pub fn driver(&mut self) -> (parts: (&Topology<T>, &ChunkGrid, &mut Cache<R>, &mut Processor<R>))
        ensures
            *parts.0 == old(self).spec_topology(),
            *parts.1 == old(self).spec_grid(),
            *parts.2 == old(self).spec_cache(),
            *parts.3 == old(self).spec_processor(),
            final(self).spec_cache() == *final(parts.2),
            final(self).spec_processor() == *final(parts.3),
            final(self).spec_topology() == old(self).spec_topology(),
            final(self).spec_grid() == old(self).spec_grid(),
            final(self).spec_is_processing() == old(self).spec_is_processing(),
    {
        (&self.topology, &self.chunk_grid, &mut self.cache, &mut self.processor)
    }

    /// Records whether an evaluation is under way, for the user interface.
    pub fn set_is_processing(&mut self, is_processing: bool)
        ensures
            final(self).spec_is_processing() == is_processing,
            final(self).spec_topology() == old(self).spec_topology(),
            final(self).spec_cache() == old(self).spec_cache(),
            final(self).spec_grid() == old(self).spec_grid(),
            final(self).spec_processor() == old(self).spec_processor(),
    {
        self.is_processing = is_processing;
    }

    pub fn is_processing(&self) -> (r: bool)
        ensures
            r == self.spec_is_processing(),
    {
        self.is_processing
    }

    /// Drops the cached outputs of `id` and of every node downstream of it.
    fn mark_dirty(&mut self, id: GraphNodeId)
        requires
            old(self).wf(),
        ensures
            final(self).wf(),
            final(self).spec_cache().state_map() == dropping(
                old(self).spec_cache().state_map(),
                downstream(old(self).spec_topology(), id),
            ),
            final(self).spec_cache().spec_last_uuid() == old(self).spec_cache().spec_last_uuid(),
            final(self).spec_topology() == old(self).spec_topology(),
            final(self).spec_grid() == old(self).spec_grid(),
            final(self).spec_processor() == old(self).spec_processor(),
            final(self).spec_is_processing() == old(self).spec_is_processing(),
    {
        let ghost t = self.topology;
        let ghost m0 = self.cache.state_map();
        let ghost down = downstream(t, id);
        proof {
            assert(is_downstream_path(t, id, seq![id]));
            assert(down.contains(id));
        }
        self.cache.mark_dirty(id);
        if !self.topology.contains(id) {
            proof {
                assert forall|x: GraphNodeId| #[trigger] down.contains(x) implies x == id by {
                    let p = choose|p: Seq<GraphNodeId>| #[trigger] is_downstream_path(t, id, p) && p.last() == x;
                    if p.len() > 1 {
                        assert(t.live(p[0]));
                    }
                }
                assert(self.cache.state_map() =~= dropping(m0, down));
            }
            return;
        }
        let n = self.topology.slot_len();
        let mut visited: Vec<bool> = Vec::new();
        let mut k: usize = 0;
        while k < n
            invariant
                k <= n,
                visited@.len() == k,
                forall|j: int| 0 <= j < k ==> !#[trigger] visited@[j],
            decreases n - k,
        {
            visited.push(false);
            k = k + 1;
        }
        proof {
            lemma_count_false(n as nat);
            assert(visited@ =~= Seq::new(n as nat, |j: int| false));
            lemma_count_true_set(visited@, id.0 as int);
        }
        visited.set(id.0, true);
        let mut stack: Vec<GraphNodeId> = Vec::new();
        stack.push(id);
        proof {
            assert(self.cache.state_map() =~= m0.restrict(
                m0.dom().filter(|k: ScopedNode| !(k.0.0 < n && visited@[k.0.0 as int])),
            )) by {
                assert forall|k: ScopedNode| (k.0.0 < n && visited@[k.0.0 as int]) <==> k.0 == id by {
                    if k.0.0 == id.0 {
                        assert(k.0 == id);
                    }
                }
            }
        }
        while stack.len() > 0
            invariant
                self.topology == t,
                t.wf(),
                self.cache.wf(),
                self.cache.spec_last_uuid() == old(self).spec_cache().spec_last_uuid(),
                self.chunk_grid == old(self).spec_grid(),
                self.processor == old(self).spec_processor(),
                self.is_processing == old(self).spec_is_processing(),
                down == downstream(t, id),
                n == t.slot_count(),
                t.live(id),
                visited@.len() == n,
                visited@[id.0 as int],
                count_true(visited@) <= n,
                forall|i: int| 0 <= i < n && #[trigger] visited@[i] ==> down.contains(GraphNodeId(i as usize)),
                forall|x: GraphNodeId| #[trigger] stack@.contains(x) ==> x.0 < n && visited@[x.0 as int],
                stack@.no_duplicates(),
                forall|i: int, y: GraphNodeId|
                    0 <= i < n && visited@[i] && !stack@.contains(GraphNodeId(i as usize)) && t.live(GraphNodeId(i as usize))
                        && #[trigger] t.outputs_of(GraphNodeId(i as usize)).contains(y) ==> y.0 < n && visited@[y.0 as int],
                self.cache.state_map() == m0.restrict(m0.dom().filter(|k: ScopedNode| !(k.0.0 < n && visited@[k.0.0 as int]))),
            decreases 2 * (n - count_true(visited@)) + stack@.len(),
        {
            let ghost measure0 = 2 * (n - count_true(visited@)) + stack@.len();
            let ghost s0 = stack@;
            let x = stack.pop().unwrap();
            proof {
                assert(s0.contains(x));
                lemma_drop_last_contains(s0);
            }
            let outs = match self.topology.outputs(x) {
                Ok(o) => o,
                Err(_) => {
                    proof {
                        assert(!t.live(x));
                        assert forall|i: int, y: GraphNodeId|
                            0 <= i < n && visited@[i] && !stack@.contains(GraphNodeId(i as usize)) && t.live(GraphNodeId(i as usize))
                                && #[trigger] t.outputs_of(GraphNodeId(i as usize)).contains(y) implies y.0 < n && visited@[y.0 as int] by {
                            if !s0.contains(GraphNodeId(i as usize)) {
                            } else {
                                assert(GraphNodeId(i as usize) == x);
                            }
                        }
                    }
                    continue;
                },
            };
            let mut j: usize = 0;
            while j < outs.len()
                invariant
                    self.topology == t,
                    t.wf(),
                    self.cache.wf(),
                    self.cache.spec_last_uuid() == old(self).spec_cache().spec_last_uuid(),
                    self.chunk_grid == old(self).spec_grid(),
                    self.processor == old(self).spec_processor(),
                    self.is_processing == old(self).spec_is_processing(),
                    down == downstream(t, id),
                    n == t.slot_count(),
                    t.live(id),
                    t.live(x),
                    x.0 < n,
                    visited@[x.0 as int],
                    !stack@.contains(x),
                    outs@ == t.outputs_of(x),
                    j <= outs@.len(),
                    visited@.len() == n,
                    visited@[id.0 as int],
                    count_true(visited@) <= n,
                    2 * (n - count_true(visited@)) + stack@.len() < measure0,
                    forall|i: int| 0 <= i < n && #[trigger] visited@[i] ==> down.contains(GraphNodeId(i as usize)),
                    forall|y: GraphNodeId| #[trigger] stack@.contains(y) ==> y.0 < n && visited@[y.0 as int],
                    stack@.no_duplicates(),
                    forall|i: int, y: GraphNodeId|
                        0 <= i < n && visited@[i] && !stack@.contains(GraphNodeId(i as usize)) && GraphNodeId(i as usize) != x
                            && t.live(GraphNodeId(i as usize)) && #[trigger] t.outputs_of(GraphNodeId(i as usize)).contains(y)
                            ==> y.0 < n && visited@[y.0 as int],
                    forall|q: int| 0 <= q < j ==> (#[trigger] outs@[q]).0 < n && visited@[outs@[q].0 as int],
                    self.cache.state_map() == m0.restrict(m0.dom().filter(|k: ScopedNode| !(k.0.0 < n && visited@[k.0.0 as int]))),
                decreases outs@.len() - j,
            {
                let y = outs[j];
                proof {
                    assert(t.outputs_of(x).contains(y));
                    lemma_output_live(t, x, y);
                }
                if !visited[y.0] {
                    proof {
                        lemma_downstream_step(t, id, x, y);
                        lemma_count_true_set(visited@, y.0 as int);
                        lemma_push_contains(stack@, y);
                    }
                    let ghost v0 = visited@;
                    let ghost st0 = stack@;
                    let ghost c0 = self.cache.state_map();
                    visited.set(y.0, true);
                    self.cache.mark_dirty(y);
                    stack.push(y);
                    proof {
                        lemma_count_true_bound(visited@);
                        assert forall|z: GraphNodeId| #[trigger] stack@.contains(z) implies z.0 < n && visited@[z.0 as int] by {
                            if z != y {
                                assert(st0.contains(z));
                            }
                        }
                        assert forall|i: int, w: GraphNodeId|
                            0 <= i < n && visited@[i] && !stack@.contains(GraphNodeId(i as usize)) && GraphNodeId(i as usize) != x
                                && t.live(GraphNodeId(i as usize)) && #[trigger] t.outputs_of(GraphNodeId(i as usize)).contains(w)
                                implies w.0 < n && visited@[w.0 as int] by {
                            if i == y.0 {
                                assert(GraphNodeId(i as usize) == y);
                                assert(stack@[stack@.len() - 1] == y);
                            } else {
                                assert(v0[i]);
                                assert(!st0.contains(GraphNodeId(i as usize)));
                            }
                        }
                        assert(self.cache.state_map() =~= m0.restrict(
                            m0.dom().filter(|k: ScopedNode| !(k.0.0 < n && visited@[k.0.0 as int])),
                        )) by {
                            assert forall|k: ScopedNode| (k.0.0 < n && visited@[k.0.0 as int]) <==> ((k.0.0 < n && v0[k.0.0 as int]) || k.0 == y) by {
                                if k.0.0 == y.0 {
                                    assert(k.0 == y);
                                }
                            }
                        }
                    }
                }
                j = j + 1;
            }
        }
        proof {
            assert(stack@ == Seq::<GraphNodeId>::empty());
            assert forall|x: GraphNodeId| #[trigger] down.contains(x) implies x.0 < n && visited@[x.0 as int] by {
                let p = choose|p: Seq<GraphNodeId>| #[trigger] is_downstream_path(t, id, p) && p.last() == x;
                lemma_downstream_closed(t, id, p, visited@, (p.len() - 1) as int);
            }
            assert(self.cache.state_map() =~= dropping(m0, down)) by {
                assert forall|k: ScopedNode| (k.0.0 < n && visited@[k.0.0 as int]) <==> down.contains(k.0) by {
                    if k.0.0 < n && visited@[k.0.0 as int] {
                        assert(GraphNodeId(k.0.0 as usize) == k.0);
                    }
                }
            }
        }
    }
}

/// Dropping the entries of `a`, then those of `b`, drops the entries of both.
pub proof fn lemma_dropping_twice<V>(m: Map<ScopedNode, V>, a: Set<GraphNodeId>, b: Set<GraphNodeId>)
    ensures
        dropping(dropping(m, a), b) == dropping(m, a.union(b)),
{
    assert(dropping(dropping(m, a), b) =~= dropping(m, a.union(b)));
}

/// Connecting a free input socket and then disconnecting that same edge succeeds and leaves the
/// edges as they were, every input socket wired as before, and every node's outputs holding the
/// same targets as before.
pub proof fn lemma_connect_then_disconnect<T>(
    t0: Topology<T>,
    t1: Topology<T>,
    t2: Topology<T>,
    from_node: GraphNodeId,
    from_socket: usize,
    to_node: GraphNodeId,
    to_socket: usize,
    r: Result<(), NodeError>,
)
    requires
        t0.wf(),
        t1.wf(),
        t0.input_of(to_node, to_socket as int) is None,
        t0.connects(&t1, from_node, from_socket, to_node, to_socket, Ok(())),
        t1.disconnects(&t2, from_node, from_socket, to_node, to_socket, r),
        t2.wf(),
    ensures
        r is Ok,
        t2.edge_list() == t0.edge_list(),
        forall|n: GraphNodeId| t0.live(n) ==> {
            &&& #[trigger] t2.inputs_at(n.0 as int) == t0.inputs_at(n.0 as int)
            &&& t2.outputs_of(n).to_multiset() == t0.outputs_of(n).to_multiset()
        },
{
    let e = EdgeEntry { from_node, from_socket, to_node, to_socket };
    assert(t1.edge_list() == t0.edge_list().push(e));
    assert(t1.edge_list()[t1.edge_list().len() - 1] == e);
    assert(t1.edge_list().contains(e));
    t1.lemma_edges_distinct();
    let i = t1.edge_list().index_of(e);
    assert(t1.edge_list()[i] == e);
    assert(i == t1.edge_list().len() - 1);
    assert(t1.edge_list().remove(i) =~= t0.edge_list());
    assert(t2.same_nodes(&t0));
    t2.lemma_edges_determine_wiring(&t0);
}

/// Removing a node leaves no edge that starts or ends at it.
pub proof fn lemma_removed_node_has_no_edges<T>(t0: Topology<T>, t1: Topology<T>, node_id: GraphNodeId)
    requires
        t0.wf(),
        t0.removes_node(&t1, node_id, Ok(())),
    ensures
        !t1.live(node_id),
        forall|k: int| 0 <= k < t1.edge_list().len() ==> !crate::graph::topology::touches(#[trigger] t1.edge_list()[k], node_id),
{
    let p = |e: EdgeEntry| !crate::graph::topology::touches(e, node_id);
    assert forall|k: int| 0 <= k < t1.edge_list().len() implies !crate::graph::topology::touches(#[trigger] t1.edge_list()[k], node_id) by {
        t0.edge_list().filter_lemma(p);
        assert(t1.edge_list() == t0.edge_list().filter(p));
        assert(t0.edge_list().filter(p).contains(t1.edge_list()[k]));
    }
}

/// Every node among the outputs of a live node of a well-formed topology is live.
pub proof fn lemma_output_live<T>(t: Topology<T>, f: GraphNodeId, x: GraphNodeId)
    requires
        t.wf(),
        t.live(f),
        t.outputs_of(f).contains(x),
    ensures
        t.live(x),
{
    t.lemma_output_edge(f, x);
    let k = choose|k: int| 0 <= k < t.edge_list().len() && t.edge_list()[k].from_node == f && t.edge_list()[k].to_node == x;
    assert(t.edge_valid(t.edge_list()[k]));
}

/// A node that an output of a downstream node leads to is downstream too.
proof fn lemma_downstream_step<T>(t: Topology<T>, from: GraphNodeId, x: GraphNodeId, y: GraphNodeId)
    requires
        downstream(t, from).contains(x),
        t.live(x),
        t.outputs_of(x).contains(y),
    ensures
        downstream(t, from).contains(y),
{
    let p = choose|p: Seq<GraphNodeId>| #[trigger] is_downstream_path(t, from, p) && p.last() == x;
    let p2 = p.push(y);
    assert forall|k: int| 0 <= k < p2.len() - 1 implies #[trigger] t.live(p2[k]) && t.outputs_of(p2[k]).contains(p2[k + 1]) by {
        if k < p.len() - 1 {
            assert(p2[k] == p[k] && p2[k + 1] == p[k + 1]);
            assert(t.live(p[k]));
        } else {
            assert(p2[k] == x);
        }
    }
    assert(is_downstream_path(t, from, p2));
}

/// Every node of a downstream path lies in a set of flags closed under following outputs.
proof fn lemma_downstream_closed<T>(t: Topology<T>, from: GraphNodeId, p: Seq<GraphNodeId>, visited: Seq<bool>, k: int)
    requires
        is_downstream_path(t, from, p),
        0 <= k < p.len(),
        from.0 < visited.len(),
        visited[from.0 as int],
        forall|i: int, y: GraphNodeId|
            0 <= i < visited.len() && visited[i] && !Seq::<GraphNodeId>::empty().contains(GraphNodeId(i as usize)) && t.live(
                GraphNodeId(i as usize),
            ) && #[trigger] t.outputs_of(GraphNodeId(i as usize)).contains(y) ==> y.0 < visited.len() && visited[y.0 as int],
    ensures
        p[k].0 < visited.len() && visited[p[k].0 as int],
    decreases k,
{
    if k > 0 {
        let j = k - 1;
        lemma_downstream_closed(t, from, p, visited, j);
        assert(t.live(p[j]) && t.outputs_of(p[j]).contains(p[j + 1]));
        assert(GraphNodeId(p[j].0 as usize) == p[j]);
        assert(!Seq::<GraphNodeId>::empty().contains(GraphNodeId(p[j].0 as usize)));
    }
}

} // verus!
