//! Per-node, per-scope evaluation state for a graph evaluated recursively: each node's output for
//! a chunk or for the whole terrain is dirty, being computed, cached in memory or baked to disk.

use vstd::prelude::*;

use crate::assoc::{lemma_lookup, AssocMap};
use crate::evaluation::cache::{EvalScope, ScopedNode};
use crate::graph::topology::GraphNodeId;

verus! {

/// What a cached output was computed from: a hash of the node's parameters, its inputs' keys,
/// its type and its id.
#[derive(Debug, Clone, Copy, PartialEq, Eq, Hash, Structural)]
pub struct CacheKey(pub u64);

/// The state of one node's output for one scope, holding the tiles `R` when cached in memory or
/// the place `P` they were written to when baked.
pub enum NodeState<R, P> {
    Dirty,
    Processing,
    Cached((CacheKey, R)),
    Baked((CacheKey, P)),
}

/// `r` is what `state` hands out for key `k` of `m`: a copy of the recorded state, or `Dirty`
/// when none is recorded.
pub open spec fn is_state_copy<R: Clone, P: Clone>(m: Map<ScopedNode, NodeState<R, P>>, k: ScopedNode, r: NodeState<R, P>) -> bool {
    if m.contains_key(k) {
        match (m[k], r) {
            (NodeState::Dirty, NodeState::Dirty) => true,
            (NodeState::Processing, NodeState::Processing) => true,
            (NodeState::Cached((a, t)), NodeState::Cached((b, u))) => a == b && cloned::<R>(t, u),
            (NodeState::Baked((a, p)), NodeState::Baked((b, q))) => a == b && cloned::<P>(p, q),
            _ => false,
        }
    } else {
        r is Dirty
    }
}

/// Some scope of `id` is recorded in `m` in a state that `pick` selects.
pub open spec fn some_scope<R, P>(m: Map<ScopedNode, NodeState<R, P>>, id: GraphNodeId, pick: spec_fn(NodeState<R, P>) -> bool) -> bool {
    exists|k: ScopedNode| #[trigger] m.contains_key(k) && k.0 == id && pick(m[k])
}

/// Every node's state, per scope.
pub struct EvalCache<R, P> {
    states: AssocMap<ScopedNode, NodeState<R, P>>,
}

impl<R, P> EvalCache<R, P> {
    pub closed spec fn state_map(&self) -> Map<ScopedNode, NodeState<R, P>> {
        self.states.map()
    }

    pub closed spec fn wf(&self) -> bool {
        self.states.wf()
    }

    pub fn new() -> (c: Self)
        ensures
            c.wf(),
            c.state_map() == Map::<ScopedNode, NodeState<R, P>>::empty(),
    {
        EvalCache { states: AssocMap::new() }
    }

    /// The state of `id` for `scope`; `Dirty` when none is recorded.
    pub fn state(&self, id: GraphNodeId, scope: EvalScope) -> (r: NodeState<R, P>) where R: Clone, P: Clone
        requires
            self.wf(),
        ensures
            is_state_copy(self.state_map(), ScopedNode(id, scope), r),
    {
        match self.states.get(&ScopedNode(id, scope)) {
            Some(NodeState::Dirty) | None => NodeState::Dirty,
            Some(NodeState::Processing) => NodeState::Processing,
            Some(NodeState::Cached((key, tiles))) => NodeState::Cached((*key, tiles.clone())),
            Some(NodeState::Baked((key, path))) => NodeState::Baked((*key, path.clone())),
        }
    }

    pub fn set(&mut self, id: GraphNodeId, scope: EvalScope, state: NodeState<R, P>)
        requires
            old(self).wf(),
        ensures
            final(self).wf(),
            final(self).state_map() == old(self).state_map().insert(ScopedNode(id, scope), state),
    {
        self.states.insert(ScopedNode(id, scope), state);
    }

    /// Drops every recorded scope of `id` (every chunk's output, plus its whole-terrain one).
    pub fn remove(&mut self, id: GraphNodeId)
        requires
            old(self).wf(),
        ensures
            final(self).wf(),
            final(self).state_map() == old(self).state_map().restrict(
                old(self).state_map().dom().filter(|k: ScopedNode| k.0 != id),
            ),
    {
        let ghost o = self.states.map();
        let mut i: usize = self.states.len();
        while i > 0
            invariant
                self.states.wf(),
                i <= self.states@.len(),
                forall|j: int| i <= j < self.states@.len() ==> #[trigger] self.states@[j].0.0 != id,
                self.states.map() == o.restrict(o.dom().filter(|k: ScopedNode| k.0 != id || self.states.map().contains_key(k))),
            decreases i,
        {
            i = i - 1;
            let k = self.states.key_at(i);
            if k.0.0 == id.0 {
                let ghost before = self.states@;
                self.states.remove_at(i);
                proof {
                    assert forall|j: int| i <= j < self.states@.len() implies #[trigger] self.states@[j].0.0 != id by {
                        assert(self.states@[j] == before[j + 1]);
                    }
                }
            }
        }
        proof {
            lemma_lookup(self.states@);
            assert(self.states.map() =~= o.restrict(o.dom().filter(|k: ScopedNode| k.0 != id)));
        }
    }

    /// Whether some scope of `id` is baked; baked nodes are opaque to invalidation.
    pub fn is_baked(&self, id: GraphNodeId) -> (r: bool)
        requires
            self.wf(),
        ensures
            r == some_scope(self.state_map(), id, |s: NodeState<R, P>| s is Baked),
    {
        self.any_scope(id, true)
    }

    /// Whether some scope of `id` is dirty.
    pub fn is_dirty(&self, id: GraphNodeId) -> (r: bool)
        requires
            self.wf(),
        ensures
            r == some_scope(self.state_map(), id, |s: NodeState<R, P>| s is Dirty),
    {
        self.any_scope(id, false)
    }

    /// Whether some scope of `id` is baked (`baked`) or dirty (`!baked`).
    fn any_scope(&self, id: GraphNodeId, baked: bool) -> (r: bool)
        requires
            self.wf(),
        ensures
            r == some_scope(
                self.state_map(),
                id,
                |s: NodeState<R, P>|
                    if baked {
                        s is Baked
                    } else {
                        s is Dirty
                    },
            ),
    {
        let ghost pick = |s: NodeState<R, P>|
            if baked {
                s is Baked
            } else {
                s is Dirty
            };
        proof {
            lemma_lookup(self.states@);
        }
        let mut i: usize = 0;
        while i < self.states.len()
            invariant
                self.states.wf(),
                i <= self.states@.len(),
                forall|s: NodeState<R, P>| #[trigger] pick(s) == if baked {
                    s is Baked
                } else {
                    s is Dirty
                },
                forall|j: int| 0 <= j < i ==> !(#[trigger] self.states@[j].0.0 == id && pick(self.states@[j].1)),
            decreases self.states@.len() - i,
        {
            let k = self.states.key_at(i);
            let hit = match self.states.value_at(i) {
                NodeState::Baked(_) => baked,
                NodeState::Dirty => !baked,
                _ => false,
            };
            proof {
                assert(hit == pick(self.states@[i as int].1));
            }
            if k.0.0 == id.0 && hit {
                proof {
                    lemma_lookup(self.states@);
                    assert(crate::assoc::lookup(self.states@, self.states@[i as int].0) == Some(self.states@[i as int].1));
                    assert(self.states.map().contains_key(k) && self.states.map()[k] == self.states@[i as int].1);
                }
                return true;
            }
            i = i + 1;
        }
        proof {
            assert forall|k: ScopedNode| #[trigger] self.states.map().contains_key(k) && k.0 == id implies !pick(
                self.states.map()[k],
            ) by {
                let j = choose|j: int|
                    0 <= j < self.states@.len() && self.states@[j].0 == k && crate::assoc::lookup(self.states@, k) == Some(
                        self.states@[j].1,
                    );
            }
        }
        false
    }

    /// Sets every recorded scope of `id` to `Dirty`, as an edit of its parameters or connections
    /// invalidates its output for every chunk as well as the whole terrain.
    pub fn mark_all_dirty(&mut self, id: GraphNodeId)
        requires
            old(self).wf(),
        ensures
            final(self).wf(),
            final(self).state_map() == old(self).state_map().map_entries(
                |k: ScopedNode, v: NodeState<R, P>|
                    if k.0 == id {
                        NodeState::Dirty
                    } else {
                        v
                    },
            ),
    {
        let ghost o = self.states@;
        let mut i: usize = 0;
        while i < self.states.len()
            invariant
                self.states.wf(),
                self.states@.len() == o.len(),
                i <= o.len(),
                forall|j: int| 0 <= j < o.len() ==> (#[trigger] self.states@[j]).0 == o[j].0,
                forall|j: int|
                    0 <= j < i ==> (#[trigger] self.states@[j]).1 == (if o[j].0.0 == id {
                        NodeState::Dirty
                    } else {
                        o[j].1
                    }),
                forall|j: int| i <= j < o.len() ==> (#[trigger] self.states@[j]).1 == o[j].1,
            decreases o.len() - i,
        {
            let k = self.states.key_at(i);
            if k.0.0 == id.0 {
                self.states.set_value_at(i, NodeState::Dirty);
            }
            i = i + 1;
        }
        proof {
            lemma_lookup(self.states@);
            lemma_lookup(o);
            let target = to_map_of(o).map_entries(
                |k: ScopedNode, v: NodeState<R, P>|
                    if k.0 == id {
                        NodeState::Dirty
                    } else {
                        v
                    },
            );
            assert forall|k: ScopedNode| #[trigger] self.states.map().contains_key(k) == target.contains_key(k) by {
                if self.states.map().contains_key(k) {
                    let j = choose|j: int|
                        0 <= j < self.states@.len() && self.states@[j].0 == k && crate::assoc::lookup(self.states@, k)
                            == Some(self.states@[j].1);
                    assert(o[j].0 == k);
                }
                if target.contains_key(k) {
                    let j = choose|j: int|
                        0 <= j < o.len() && o[j].0 == k && crate::assoc::lookup(o, k) == Some(o[j].1);
                    assert(self.states@[j].0 == k);
                }
            }
            assert forall|k: ScopedNode| #[trigger] self.states.map().contains_key(k) implies self.states.map()[k]
                == target[k] by {
                let j = choose|j: int|
                    0 <= j < self.states@.len() && self.states@[j].0 == k && crate::assoc::lookup(self.states@, k) == Some(
                        self.states@[j].1,
                    );
                assert(o[j].0 == k);
                assert(crate::assoc::lookup(o, k) == Some(o[j].1));
            }
            assert(self.states.map() =~= target);
        }
    }

    /// Drops every chunk-scoped state; whole-terrain ones are kept, as their tiles do not come
    /// from the chunk pool.
    pub fn clear_chunk_states(&mut self)
        requires
            old(self).wf(),
        ensures
            final(self).wf(),
            final(self).state_map() == old(self).state_map().restrict(
                old(self).state_map().dom().filter(|k: ScopedNode| k.1 is Global),
            ),
    {
        let ghost o = self.states.map();
        let mut i: usize = self.states.len();
        while i > 0
            invariant
                self.states.wf(),
                i <= self.states@.len(),
                forall|j: int| i <= j < self.states@.len() ==> #[trigger] self.states@[j].0.1 is Global,
                self.states.map() == o.restrict(o.dom().filter(|k: ScopedNode| k.1 is Global || self.states.map().contains_key(k))),
            decreases i,
        {
            i = i - 1;
            let k = self.states.key_at(i);
            let is_chunk = match k.1 {
                EvalScope::Chunk(_) => true,
                EvalScope::Global(_) => false,
            };
            if is_chunk {
                let ghost before = self.states@;
                self.states.remove_at(i);
                proof {
                    assert forall|j: int| i <= j < self.states@.len() implies #[trigger] self.states@[j].0.1 is Global by {
                        assert(self.states@[j] == before[j + 1]);
                    }
                }
            }
        }
        proof {
            lemma_lookup(self.states@);
            assert(self.states.map() =~= o.restrict(o.dom().filter(|k: ScopedNode| k.1 is Global)));
        }
    }
}

/// The map a pair sequence stands for.
spec fn to_map_of<R, P>(s: Seq<(ScopedNode, NodeState<R, P>)>) -> Map<ScopedNode, NodeState<R, P>> {
    crate::assoc::to_map(s)
}

/// The key a state was computed under, for the states that hold an output.
pub fn cache_key_of<R, P>(state: &NodeState<R, P>) -> (r: Option<CacheKey>)
    ensures
        r == match *state {
            NodeState::Cached((k, _)) | NodeState::Baked((k, _)) => Some(k),
            _ => None::<CacheKey>,
        },
{
    match state {
        NodeState::Cached((k, _)) | NodeState::Baked((k, _)) => Some(*k),
        _ => None,
    }
}

} // verus!
