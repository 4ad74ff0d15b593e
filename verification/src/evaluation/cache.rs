//! The cache of node outputs, one entry per node and evaluation scope.

use vstd::prelude::*;

use crate::assoc::{AssocMap, KeyEq};
use crate::graph::topology::GraphNodeId;
use crate::tiling::grid::ChunkCoord;

verus! {

pub type CacheUuid = u64;

/// A specific chunk, or the single whole-terrain pass (at a given `native_resolution`) used to
/// evaluate a `Global` node. Resolution is part of the key so a `Global` node re-evaluated at a
/// new `native_resolution` can't reuse a stale-sized entry.
#[derive(Debug, Clone, Copy, PartialEq, Eq, Hash, Structural)]
pub enum EvalScope {
    Chunk(ChunkCoord),
    Global(usize),
}

/// The key of a cache entry: a node and the scope it was evaluated for.
#[derive(Debug, Clone, Copy, PartialEq, Eq, Hash, Structural)]
pub struct ScopedNode(pub GraphNodeId, pub EvalScope);

impl KeyEq for ScopedNode {
    fn key_eq(&self, other: &Self) -> (r: bool) {
        self.0.0 == other.0.0 && match (self.1, other.1) {
            (EvalScope::Chunk(a), EvalScope::Chunk(b)) => a.0 == b.0 && a.1 == b.1,
            (EvalScope::Global(a), EvalScope::Global(b)) => a == b,
            _ => false,
        }
    }
}

/// The state of one cache entry. A missing entry means dirty; there is no explicit `Dirty` state.
pub enum CacheState<R> {
    Processing,
    Cached(CacheUuid, R),
}

/// A node's gathered result: `Local` bundles every chunk's entry; `Global` is the node's single pass.
pub enum CacheEntry<R> {
    Local(AssocMap<ChunkCoord, (CacheUuid, R)>),
    Global(CacheUuid, R),
}

/// `u` is the newest id of `entry`: its single pass's, or the largest of its chunks' (0 when it
/// has none).
pub open spec fn is_newest<R>(entry: CacheEntry<R>, u: CacheUuid) -> bool {
    match entry {
        CacheEntry::Global(g, _) => u == g,
        CacheEntry::Local(m) => {
            &&& forall|i: int| 0 <= i < m@.len() ==> (#[trigger] m@[i]).1.0 <= u
            &&& m@.len() == 0 ==> u == 0
            &&& m@.len() > 0 ==> exists|i: int| 0 <= i < m@.len() && (#[trigger] m@[i]).1.0 == u
        },
    }
}

impl<R> CacheEntry<R> {
    /// The id of the newest output the entry holds, which tells a viewer whether it changed.
    pub fn newest(&self) -> (u: CacheUuid)
        ensures
            is_newest(*self, u),
    {
        match self {
            CacheEntry::Global(g, _) => *g,
            CacheEntry::Local(m) => {
                let mut u: CacheUuid = 0;
                let mut i: usize = 0;
                while i < m.len()
                    invariant
                        i <= m@.len(),
                        forall|j: int| 0 <= j < i ==> (#[trigger] m@[j]).1.0 <= u,
                        i == 0 ==> u == 0,
                        i > 0 ==> exists|j: int| 0 <= j < i && (#[trigger] m@[j]).1.0 == u,
                    decreases m@.len() - i,
                {
                    let v = m.value_at(i).0;
                    if i == 0 || v > u {
                        u = v;
                    }
                    proof {
                        assert(m@[i as int].1.0 == v);
                    }
                    i = i + 1;
                }
                u
            },
        }
    }
}

/// The cached output of every node, per evaluation scope, with the last id handed to an entry.
pub struct Cache<R> {
    last_uuid: CacheUuid,
    entries: AssocMap<ScopedNode, CacheState<R>>,
}

impl<R> Cache<R> {
    pub closed spec fn state_map(&self) -> Map<ScopedNode, CacheState<R>> {
        self.entries.map()
    }

    pub closed spec fn spec_last_uuid(&self) -> CacheUuid {
        self.last_uuid
    }

    pub closed spec fn wf(&self) -> bool {
        self.entries.wf()
    }

    /// Number of entries kept.
    pub closed spec fn entry_len(&self) -> nat {
        self.entries@.len()
    }

    /// The cached output of `node_id` for `scope`, if any.
    pub open spec fn cached(&self, node_id: GraphNodeId, scope: EvalScope) -> Option<(CacheUuid, R)> {
        let k = ScopedNode(node_id, scope);
        if self.state_map().contains_key(k) {
            match self.state_map()[k] {
                CacheState::Cached(u, t) => Some((u, t)),
                CacheState::Processing => None,
            }
        } else {
            None
        }
    }

    pub open spec fn processing(&self, node_id: GraphNodeId, scope: EvalScope) -> bool {
        let k = ScopedNode(node_id, scope);
        self.state_map().contains_key(k) && self.state_map()[k] is Processing
    }

    pub fn new() -> (c: Self)
        ensures
            c.wf(),
            c.state_map() == Map::<ScopedNode, CacheState<R>>::empty(),
            c.spec_last_uuid() == 0,
    {
        Cache { last_uuid: 0, entries: AssocMap::new() }
    }

    /// Marks `node_id` as being evaluated for `scope`, replacing whatever was cached there.
    pub fn mark_processing(&mut self, node_id: GraphNodeId, scope: EvalScope)
        requires
            old(self).wf(),
        ensures
            final(self).wf(),
            final(self).state_map() == old(self).state_map().insert(ScopedNode(node_id, scope), CacheState::Processing),
            final(self).spec_last_uuid() == old(self).spec_last_uuid(),
    {
        self.entries.insert(ScopedNode(node_id, scope), CacheState::Processing);
    }

    pub fn is_processing(&self, node_id: GraphNodeId, scope: EvalScope) -> (r: bool)
        requires
            self.wf(),
        ensures
            r == self.processing(node_id, scope),
    {
        match self.entries.get(&ScopedNode(node_id, scope)) {
            Some(CacheState::Processing) => true,
            _ => false,
        }
    }

    /// Drops every scope of `node_id`.
    pub fn mark_dirty(&mut self, node_id: GraphNodeId)
        requires
            old(self).wf(),
        ensures
            final(self).wf(),
            final(self).state_map() == old(self).state_map().restrict(
                old(self).state_map().dom().filter(|k: ScopedNode| k.0 != node_id),
            ),
            final(self).spec_last_uuid() == old(self).spec_last_uuid(),
    {
        let ghost o = self.entries.map();
        let mut i: usize = self.entries.len();
        while i > 0
            invariant
                self.entries.wf(),
                self.last_uuid == old(self).last_uuid,
                i <= self.entries@.len(),
                forall|j: int| i <= j < self.entries@.len() ==> #[trigger] self.entries@[j].0.0 != node_id,
                self.entries.map() == o.restrict(
                    o.dom().filter(|k: ScopedNode| k.0 != node_id || self.entries.map().contains_key(k)),
                ),
            decreases i,
        {
            i = i - 1;
            let k = self.entries.key_at(i);
            if k.0.0 == node_id.0 {
                let ghost before = self.entries@;
                self.entries.remove_at(i);
                proof {
                    assert forall|j: int| i <= j < self.entries@.len() implies #[trigger] self.entries@[j].0.0 != node_id by {
                        assert(self.entries@[j] == before[j + 1]);
                    }
                }
            }
        }
        proof {
            crate::assoc::lemma_lookup(self.entries@);
            assert(self.entries.map() =~= o.restrict(o.dom().filter(|k: ScopedNode| k.0 != node_id)));
        }
    }

    pub fn get(&self, node_id: GraphNodeId, scope: EvalScope) -> (r: Option<(CacheUuid, &R)>)
        requires
            self.wf(),
        ensures
            r is None <==> self.cached(node_id, scope) is None,
            r matches Some((u, t)) ==> self.cached(node_id, scope) == Some((u, *t)),
    {
        match self.entries.get(&ScopedNode(node_id, scope)) {
            Some(CacheState::Cached(uuid, tiles)) => Some((*uuid, tiles)),
            _ => None,
        }
    }

    /// Caches `tiles` as the output of `node_id` for `scope`, under a fresh id, which it returns.
    pub fn set(&mut self, node_id: GraphNodeId, scope: EvalScope, tiles: R) -> (u: CacheUuid)
        requires
            old(self).wf(),
            old(self).spec_last_uuid() < CacheUuid::MAX,
        ensures
            final(self).wf(),
            u == old(self).spec_last_uuid() + 1,
            final(self).spec_last_uuid() == u,
            final(self).state_map() == old(self).state_map().insert(ScopedNode(node_id, scope), CacheState::Cached(u, tiles)),
    {
        self.last_uuid = self.last_uuid + 1;
        let u = self.last_uuid;
        self.entries.insert(ScopedNode(node_id, scope), CacheState::Cached(u, tiles));
        u
    }

    /// Drops every `Chunk`-scoped entry graph-wide; `Global`-scoped ones are untouched.
    pub fn clear_all_chunks(&mut self)
        requires
            old(self).wf(),
        ensures
            final(self).wf(),
            final(self).state_map() == old(self).state_map().restrict(
                old(self).state_map().dom().filter(|k: ScopedNode| k.1 is Global),
            ),
            final(self).spec_last_uuid() == old(self).spec_last_uuid(),
    {
        let ghost o = self.entries.map();
        let mut i: usize = self.entries.len();
        while i > 0
            invariant
                self.entries.wf(),
                self.last_uuid == old(self).last_uuid,
                i <= self.entries@.len(),
                forall|j: int| i <= j < self.entries@.len() ==> #[trigger] self.entries@[j].0.1 is Global,
                self.entries.map() == o.restrict(
                    o.dom().filter(|k: ScopedNode| k.1 is Global || self.entries.map().contains_key(k)),
                ),
            decreases i,
        {
            i = i - 1;
            let k = self.entries.key_at(i);
            let is_chunk = match k.1 {
                EvalScope::Chunk(_) => true,
                EvalScope::Global(_) => false,
            };
            if is_chunk {
                let ghost before = self.entries@;
                self.entries.remove_at(i);
                proof {
                    assert forall|j: int| i <= j < self.entries@.len() implies #[trigger] self.entries@[j].0.1 is Global by {
                        assert(self.entries@[j] == before[j + 1]);
                    }
                }
            }
        }
        proof {
            crate::assoc::lemma_lookup(self.entries@);
            assert(self.entries.map() =~= o.restrict(o.dom().filter(|k: ScopedNode| k.1 is Global)));
        }
    }

    /// The id handed to the latest cached output, 0 before any.
    pub fn last_uuid(&self) -> (u: CacheUuid)
        ensures
            u == self.spec_last_uuid(),
    {
        self.last_uuid
    }

    /// Number of entries, in the order they are kept.
    pub fn entry_count(&self) -> (n: usize)
        ensures
            n == self.entry_len(),
    {
        self.entries.len()
    }

    /// The `i`-th entry, for callers that account for what the cache holds.
    pub fn entry_at(&self, i: usize) -> (r: (ScopedNode, &CacheState<R>))
        requires
            self.wf(),
            i < self.entry_len(),
        ensures
            self.state_map().contains_key(r.0),
            self.state_map()[r.0] == *r.1,
    {
        proof {
            crate::assoc::lemma_lookup(self.entries@);
        }
        (self.entries.key_at(i), self.entries.value_at(i))
    }
}

/// What `set` caches is what `get` gives back for that node and scope; nothing else changes.
pub proof fn lemma_set_then_get<R>(c0: Cache<R>, c1: Cache<R>, node_id: GraphNodeId, scope: EvalScope, tiles: R, u: CacheUuid)
    requires
        c1.state_map() == c0.state_map().insert(ScopedNode(node_id, scope), CacheState::Cached(u, tiles)),
    ensures
        c1.cached(node_id, scope) == Some((u, tiles)),
        forall|n: GraphNodeId, s: EvalScope| (n, s) != (node_id, scope) ==> #[trigger] c1.cached(n, s) == c0.cached(n, s),
{
    assert forall|n: GraphNodeId, s: EvalScope| (n, s) != (node_id, scope) implies #[trigger] c1.cached(n, s) == c0.cached(n, s) by {
        assert(ScopedNode(n, s) != ScopedNode(node_id, scope));
    }
}

/// Once a node is marked dirty, none of its scopes is cached or being evaluated, and every other
/// node's entries stay as they were.
pub proof fn lemma_dirty_node_has_no_entry<R>(c0: Cache<R>, c1: Cache<R>, node_id: GraphNodeId)
    requires
        c1.state_map() == c0.state_map().restrict(c0.state_map().dom().filter(|k: ScopedNode| k.0 != node_id)),
    ensures
        forall|s: EvalScope| #[trigger] c1.cached(node_id, s) is None && !c1.processing(node_id, s),
        forall|n: GraphNodeId, s: EvalScope| n != node_id ==> #[trigger] c1.cached(n, s) == c0.cached(n, s) && c1.processing(n, s)
            == c0.processing(n, s),
{
}

} // verus!
