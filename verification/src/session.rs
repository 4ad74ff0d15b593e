//! The live terrain project: the node graph together with the preview bookkeeping that decides
//! when a node's output is new enough to be shown again, and the feedback shown per node.

use std::time::Duration;

use vstd::prelude::*;

use crate::assoc::{AssocMap, KeyEq};
use crate::evaluation::cache::CacheUuid;
use crate::graph::{GraphNodeId, NodeGraph};
use crate::node::message::{
    duration_nanos, expired_after, expires_at_once, pruned_with, result_message, time_left, MessageLifetime, NodeMessage,
    NodeMessageLog, TimedNodeMessage,
};
use crate::node::error::error_message;
use crate::node::NodeError;
use crate::tiling::grid::{ChunkCoord, ChunkGrid};

verus! {

/// Where a step of a node's evaluation left it: finished, with the generation of its output and
/// the output itself, or still under way.
#[derive(Debug, Clone, PartialEq, Eq)]
pub enum ProcessOutcome<X> {
    Processed(CacheUuid, X),
    Processing,
}

/// A node and one chunk of it.
#[derive(Debug, Clone, Copy, PartialEq, Eq, Hash, Structural)]
pub struct NodeChunk(pub GraphNodeId, pub ChunkCoord);

impl KeyEq for NodeChunk {
    fn key_eq(&self, other: &Self) -> (r: bool) {
        self.0.0 == other.0.0 && self.1.0 == other.1.0 && self.1.1 == other.1.1
    }
}

/// The generation recorded for `k` in `m`, or 0 when none is.
pub open spec fn generation_of<K>(m: Map<K, CacheUuid>, k: K) -> CacheUuid {
    if m.contains_key(k) {
        m[k]
    } else {
        0
    }
}

/// The state of the node graph and of its preview for the current session.
pub struct TerrainSession<T, R> {
    graph: NodeGraph<T, R>,
    /// The generation of each node's output last shown.
    generations: AssocMap<GraphNodeId, CacheUuid>,
    /// Like `generations`, but per chunk, for a chunked preview.
    chunk_generations: AssocMap<NodeChunk, CacheUuid>,
    /// Forces a refresh when the selection changes even if the newly selected node's generation
    /// hasn't advanced.
    displayed_node: Option<GraphNodeId>,
    /// The node the user has selected in the editor.
    selected_node: Option<GraphNodeId>,
    /// Feedback from the most recent `on_action`/`set_param` call on each node.
    messages: NodeMessageLog,
}

/// The tile resolutions the engine offers: powers of two up to its cap.
pub fn tile_resolutions() -> (r: [usize; 7])
    ensures
        r@ == seq![64usize, 128, 256, 512, 1024, 2048, 4096],
{
    [64, 128, 256, 512, 1024, 2048, 4096]
}

impl<T, R> TerrainSession<T, R> {
    pub closed spec fn spec_graph(&self) -> NodeGraph<T, R> {
        self.graph
    }

    pub closed spec fn generations(&self) -> Map<GraphNodeId, CacheUuid> {
        self.generations.map()
    }

    pub closed spec fn chunk_generations(&self) -> Map<NodeChunk, CacheUuid> {
        self.chunk_generations.map()
    }

    pub closed spec fn displayed(&self) -> Option<GraphNodeId> {
        self.displayed_node
    }

    pub closed spec fn selected(&self) -> Option<GraphNodeId> {
        self.selected_node
    }

    pub closed spec fn log(&self) -> NodeMessageLog {
        self.messages
    }

    pub closed spec fn wf(&self) -> bool {
        &&& self.graph.wf()
        &&& self.generations.wf()
        &&& self.chunk_generations.wf()
        &&& self.messages.wf()
    }

    /// A session over an empty graph on `chunk_grid`, with nothing shown yet.
    pub fn new(chunk_grid: ChunkGrid) -> (s: Self)
        ensures
            s.wf(),
            s.spec_graph().spec_grid() == chunk_grid,
            s.spec_graph().spec_topology().slot_count() == 0,
            s.generations() == Map::<GraphNodeId, CacheUuid>::empty(),
            s.chunk_generations() == Map::<NodeChunk, CacheUuid>::empty(),
            s.displayed() is None,
            s.selected() is None,
            s.log().entries() == Map::<GraphNodeId, TimedNodeMessage>::empty(),
    {
        TerrainSession {
            graph: NodeGraph::new(chunk_grid),
            generations: AssocMap::new(),
            chunk_generations: AssocMap::new(),
            displayed_node: None,
            selected_node: None,
            messages: NodeMessageLog::new(),
        }
    }

    /// Replaces whatever feedback was shown before for `node_id` (see `NodeMessageLog::set_result`).
    pub fn set_action_result(&mut self, node_id: GraphNodeId, result: Result<String, NodeError>)
        requires
            old(self).wf(),
        ensures
            final(self).wf(),
            final(self).log().entries().dom() == old(self).log().entries().dom().insert(node_id),
            forall|k: GraphNodeId| k != node_id && #[trigger] old(self).log().entries().contains_key(k) ==> final(self).log().entries()[k]
                == old(self).log().entries()[k],
            ({
                let m = final(self).log().entries()[node_id];
                let expected = result_message(match result { Ok(t) => Ok(t@), Err(e) => Err(e) });
                &&& m.message_of().severity == expected.0
                &&& m.message_of().text@ == expected.1
                &&& result is Ok ==> (m.lifetime_of() matches MessageLifetime::Timed(d) && duration_nanos(d) == 3_000_000_000)
                &&& result is Err ==> m.lifetime_of() is Persistent
            }),
            final(self).spec_graph() == old(self).spec_graph(),
            final(self).generations() == old(self).generations(),
            final(self).chunk_generations() == old(self).chunk_generations(),
            final(self).displayed() == old(self).displayed(),
            final(self).selected() == old(self).selected(),
    {
        self.messages.set_result(node_id, result);
    }

    pub fn clear_action_message(&mut self, node_id: GraphNodeId)
        requires
            old(self).wf(),
        ensures
            final(self).wf(),
            final(self).log().entries() == old(self).log().entries().remove(node_id),
            final(self).spec_graph() == old(self).spec_graph(),
            final(self).generations() == old(self).generations(),
            final(self).chunk_generations() == old(self).chunk_generations(),
            final(self).displayed() == old(self).displayed(),
            final(self).selected() == old(self).selected(),
    {
        self.messages.clear(node_id);
    }

    /// The still-live feedback for `node_id` (see `NodeMessageLog::get`).
    pub fn action_message(&self, node_id: GraphNodeId) -> (r: Option<&NodeMessage>)
        requires
            self.wf(),
        ensures
            !self.log().entries().contains_key(node_id) ==> r is None,
            r matches Some(m) ==> self.log().entries().contains_key(node_id) && *m == self.log().entries()[node_id].message_of(),
            self.log().entries().contains_key(node_id) && self.log().entries()[node_id].lifetime_of() is Persistent ==> r is Some,
            exists|n: u128|
                r is Some <==> self.log().entries().contains_key(node_id) && !#[trigger] expired_after(
                    self.log().entries()[node_id].lifetime_of(),
                    n,
                ),
    {
        let r = self.messages.get(node_id);
        proof {
            let n = choose|n: u128|
                r is Some <==> self.messages.entries().contains_key(node_id) && !#[trigger] expired_after(
                    self.messages.entries()[node_id].lifetime_of(),
                    n,
                );
            assert(self.log() == self.messages);
            let b = expired_after(self.log().entries()[node_id].lifetime_of(), n);
            assert(r is Some <==> self.log().entries().contains_key(node_id) && !b);
        }
        r
    }

    /// `None` unless the feedback for `node_id` is timed and still live.
    pub fn action_message_remaining(&self, node_id: GraphNodeId) -> (r: Option<Duration>)
        requires
            self.wf(),
        ensures
            !self.log().entries().contains_key(node_id) ==> r is None,
            self.log().entries().contains_key(node_id) && self.log().entries()[node_id].lifetime_of() is Persistent ==> r is None,
            (self.log().entries().contains_key(node_id) && r is Some) ==> (self.log().entries()[node_id].lifetime_of() matches MessageLifetime::Timed(
                d,
            ) && 0 < duration_nanos(r.unwrap()) <= duration_nanos(d)),
            self.log().entries().contains_key(node_id) ==> exists|e: Duration| time_left(self.log().entries()[node_id].lifetime_of(), e, r),
    {
        self.messages.remaining(node_id)
    }

    /// Drops the feedback that has already expired.
    pub fn prune_expired_messages(&mut self)
        requires
            old(self).wf(),
        ensures
            final(self).wf(),
            forall|k: GraphNodeId| #[trigger] final(self).log().entries().contains_key(k) ==> old(self).log().entries().contains_key(k)
                && final(self).log().entries()[k] == old(self).log().entries()[k],
            forall|k: GraphNodeId|
                #[trigger] old(self).log().entries().contains_key(k) && old(self).log().entries()[k].lifetime_of() is Persistent
                    ==> final(self).log().entries().contains_key(k),
            forall|k: GraphNodeId|
                #[trigger] old(self).log().entries().contains_key(k) && expires_at_once(old(self).log().entries()[k].lifetime_of())
                    ==> !final(self).log().entries().contains_key(k),
            exists|readings: Map<GraphNodeId, u128>|
                #[trigger] pruned_with(old(self).log().entries(), readings, final(self).log().entries()),
            final(self).spec_graph() == old(self).spec_graph(),
            final(self).generations() == old(self).generations(),
            final(self).chunk_generations() == old(self).chunk_generations(),
            final(self).displayed() == old(self).displayed(),
            final(self).selected() == old(self).selected(),
    {
        let ghost before = self.messages.entries();
        self.messages.prune_expired();
        proof {
            let readings = choose|readings: Map<GraphNodeId, u128>| #[trigger] pruned_with(before, readings, self.messages.entries());
            assert(pruned_with(old(self).log().entries(), readings, self.log().entries()));
        }
    }

    /// Takes the outcome of a step of `node_id`'s evaluation: its output is handed on when it is
    /// of a newer generation than the one last shown, or when `node_id` was not the node on
    /// display - reselecting an unchanged node must still redisplay it. `Ok(None)` otherwise, or
    /// while still processing.
    pub fn process<X>(&mut self, node_id: GraphNodeId, outcome: Result<ProcessOutcome<X>, NodeError>) -> (r: Result<
        Option<(CacheUuid, X)>,
        NodeError,
    >)
        requires
            old(self).wf(),
        ensures
            final(self).wf(),
            final(self).spec_graph() == old(self).spec_graph(),
            final(self).chunk_generations() == old(self).chunk_generations(),
            final(self).selected() == old(self).selected(),
            final(self).log() == old(self).log(),
            match outcome {
                Err(e) => r == Err::<Option<(CacheUuid, X)>, NodeError>(e) && final(self).generations() == old(self).generations()
                    && final(self).displayed() == old(self).displayed(),
                Ok(ProcessOutcome::Processing) => r == Ok::<Option<(CacheUuid, X)>, NodeError>(None) && final(self).generations()
                    == old(self).generations() && final(self).displayed() == old(self).displayed(),
                Ok(ProcessOutcome::Processed(g, x)) => if old(self).displayed() == Some(node_id) && g <= generation_of(
                    old(self).generations(),
                    node_id,
                ) {
                    r == Ok::<Option<(CacheUuid, X)>, NodeError>(None) && final(self).generations() == old(self).generations()
                        && final(self).displayed() == old(self).displayed()
                } else {
                    r == Ok::<Option<(CacheUuid, X)>, NodeError>(Some((g, x))) && final(self).generations() == old(
                        self,
                    ).generations().insert(node_id, g) && final(self).displayed() == Some(node_id)
                },
            },
    {
        let just_selected = match self.displayed_node {
            Some(d) => d.0 != node_id.0,
            None => true,
        };
        let generation = match self.generations.get(&node_id) {
            Some(g) => *g,
            None => 0,
        };
        match outcome {
            Err(e) => Err(e),
            Ok(ProcessOutcome::Processing) => Ok(None),
            Ok(ProcessOutcome::Processed(new_generation, output)) => {
                if !just_selected && new_generation <= generation {
                    return Ok(None);
                }
                self.generations.insert(node_id, new_generation);
                self.displayed_node = Some(node_id);
                Ok(Some((new_generation, output)))
            },
        }
    }

    /// Reports `true` at most once per selection change - calling it marks `node_id` as now
    /// displayed - so the caller can force every chunk of a newly selected node to redraw once.
    pub fn note_selection(&mut self, node_id: GraphNodeId) -> (r: bool)
        ensures
            r == (old(self).displayed() != Some(node_id)),
            final(self).displayed() == Some(node_id),
            final(self).spec_graph() == old(self).spec_graph(),
            final(self).generations() == old(self).generations(),
            final(self).chunk_generations() == old(self).chunk_generations(),
            final(self).selected() == old(self).selected(),
            final(self).log() == old(self).log(),
            final(self).wf() == old(self).wf(),
    {
        let just_selected = match self.displayed_node {
            Some(d) => d.0 != node_id.0,
            None => true,
        };
        self.displayed_node = Some(node_id);
        just_selected
    }

    /// Takes the result of evaluating `chunk` of `node_id`: its output is handed on when it is of
    /// a newer generation than the one last shown for that chunk, or when `force` - the result of
    /// `note_selection` - says the chunk must be redrawn anyway.
    pub fn apply_chunk_result<X>(
        &mut self,
        node_id: GraphNodeId,
        chunk: ChunkCoord,
        force: bool,
        result: Result<ProcessOutcome<X>, NodeError>,
    ) -> (r: Result<Option<(CacheUuid, X)>, NodeError>)
        requires
            old(self).wf(),
        ensures
            final(self).wf(),
            final(self).spec_graph() == old(self).spec_graph(),
            final(self).generations() == old(self).generations(),
            final(self).displayed() == old(self).displayed(),
            final(self).selected() == old(self).selected(),
            final(self).log() == old(self).log(),
            match result {
                Err(e) => r == Err::<Option<(CacheUuid, X)>, NodeError>(e) && final(self).chunk_generations() == old(
                    self,
                ).chunk_generations(),
                Ok(ProcessOutcome::Processing) => r == Ok::<Option<(CacheUuid, X)>, NodeError>(None)
                    && final(self).chunk_generations() == old(self).chunk_generations(),
                Ok(ProcessOutcome::Processed(g, x)) => if !force && g <= generation_of(
                    old(self).chunk_generations(),
                    NodeChunk(node_id, chunk),
                ) {
                    r == Ok::<Option<(CacheUuid, X)>, NodeError>(None) && final(self).chunk_generations() == old(
                        self,
                    ).chunk_generations()
                } else {
                    r == Ok::<Option<(CacheUuid, X)>, NodeError>(Some((g, x))) && final(self).chunk_generations() == old(
                        self,
                    ).chunk_generations().insert(NodeChunk(node_id, chunk), g)
                },
            },
    {
        let key = NodeChunk(node_id, chunk);
        let generation = match self.chunk_generations.get(&key) {
            Some(g) => *g,
            None => 0,
        };
        match result {
            Err(e) => Err(e),
            Ok(ProcessOutcome::Processing) => Ok(None),
            Ok(ProcessOutcome::Processed(new_generation, output)) => {
                if !force && new_generation <= generation {
                    return Ok(None);
                }
                self.chunk_generations.insert(key, new_generation);
                Ok(Some((new_generation, output)))
            },
        }
    }

    pub fn selected_node(&self) -> (r: Option<GraphNodeId>)
        ensures
            r == self.selected(),
    {
        self.selected_node
    }

    pub fn set_selected_node(&mut self, node_id: Option<GraphNodeId>)
        ensures
            final(self).selected() == node_id,
            final(self).spec_graph() == old(self).spec_graph(),
            final(self).generations() == old(self).generations(),
            final(self).chunk_generations() == old(self).chunk_generations(),
            final(self).displayed() == old(self).displayed(),
            final(self).log() == old(self).log(),
            final(self).wf() == old(self).wf(),
    {
        self.selected_node = node_id;
    }

    pub fn graph(&self) -> (r: &NodeGraph<T, R>)
        ensures
            *r == self.spec_graph(),
    {
        &self.graph
    }

    pub fn graph_mut(&mut self) -> (r: &mut NodeGraph<T, R>)
        requires
            old(self).wf(),
        ensures
            *r == old(self).spec_graph(),
            final(self).spec_graph() == *final(r),
            final(self).generations() == old(self).generations(),
            final(self).chunk_generations() == old(self).chunk_generations(),
            final(self).displayed() == old(self).displayed(),
            final(self).selected() == old(self).selected(),
            final(self).log() == old(self).log(),
    {
        &mut self.graph
    }

    /// Replaces the whole graph (after loading a project, say), discarding the bookkeeping,
    /// selection and messages tied to the previous graph's node ids.
    pub fn reset_graph(&mut self, graph: NodeGraph<T, R>)
        requires
            graph.wf(),
        ensures
            final(self).wf(),
            final(self).spec_graph() == graph,
            final(self).generations() == Map::<GraphNodeId, CacheUuid>::empty(),
            final(self).chunk_generations() == Map::<NodeChunk, CacheUuid>::empty(),
            final(self).displayed() is None,
            final(self).selected() is None,
            final(self).log().entries() == Map::<GraphNodeId, TimedNodeMessage>::empty(),
    {
        self.graph = graph;
        self.generations = AssocMap::new();
        self.chunk_generations = AssocMap::new();
        self.displayed_node = None;
        self.selected_node = None;
        self.messages = NodeMessageLog::new();
    }
}

} // verus!
