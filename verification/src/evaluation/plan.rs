//! Scheduling decisions over a node's ancestors: the tile size their kernels need, the order in
//! which they can be evaluated, and which of them to evaluate next.

use vstd::prelude::*;

use crate::graph::lemma_output_live;
use crate::graph::topology::{count_true, lemma_count_false, lemma_count_true_bound, lemma_count_true_set, EdgeEntry, GraphNodeId, Topology};
use crate::evaluation::cache::{Cache, EvalScope};
use crate::sequences::{lemma_drop_last_contains, lemma_push_contains};
use crate::node::{NodeError, NodeLocality};
use crate::tiling::grid::{ChunkCoord, ChunkGrid};

verus! {

/// Half a kernel, rounded up: the margin a node of kernel size `size` needs on each side.
pub open spec fn half_kernel(size: usize) -> nat {
    (size / 2 + size % 2) as nat
}

/// The margin that ancestor `a` of `root` adds: nothing for a `Global` ancestor, which handles its
/// own padding in its whole-terrain pass, and half its kernel otherwise.
pub open spec fn margin_of<T>(t: Topology<T>, root: GraphNodeId, a: GraphNodeId) -> nat {
    match t.shape(a).locality {
        NodeLocality::Global { .. } => if a == root { half_kernel(t.shape(a).size) } else { 0 },
        NodeLocality::Local => half_kernel(t.shape(a).size),
    }
}

/// The margins of the ancestors of `root` among the slots below `i`.
pub open spec fn margin_sum<T>(t: Topology<T>, root: GraphNodeId, i: nat) -> nat
    decreases i,
{
    if i == 0 {
        0
    } else {
        let a = GraphNodeId((i - 1) as usize);
        margin_sum(t, root, (i - 1) as nat) + if t.ancestors(root).contains(a) { margin_of(t, root, a) } else { 0 }
    }
}

/// The tile size every `Local` ancestor of `root` shares while computing a `base_size` output:
/// each ancestor between `root` and the nearest `Global` boundary contributes its own kernel
/// margin on both sides.
pub open spec fn working_size<T>(t: Topology<T>, root: GraphNodeId, base_size: usize) -> int {
    base_size + 2 * margin_sum(t, root, t.slot_count())
}

/// How socket `s` of `node` is fed while `node` is evaluated chunk by chunk, or `None` when it
/// cannot be: a required socket left unconnected, or a `Global` ancestor not evaluated yet.
pub open spec fn planned_input<T, R>(t: Topology<T>, cache: Cache<R>, node: GraphNodeId, s: int) -> Option<ResolvedInput> {
    match t.input_of(node, s) {
        Some((a, sock)) => match t.shape(a).locality {
            NodeLocality::Local => Some(ResolvedInput::Local { ancestor: a, socket: sock }),
            NodeLocality::Global { native_resolution } => if cache.cached(a, EvalScope::Global(native_resolution)) is Some {
                Some(ResolvedInput::Global { ancestor: a, native_resolution, socket: sock })
            } else {
                None
            },
        },
        None => if t.shape(node).inputs@[s].required {
            None
        } else {
            Some(ResolvedInput::Neutral)
        },
    }
}

/// `e` is the error reported for socket `s` of `node` when it cannot be fed.
pub open spec fn input_error<T>(t: Topology<T>, node: GraphNodeId, s: int, e: NodeError) -> bool {
    match t.input_of(node, s) {
        Some((a, _)) => e == NodeError::NodeNotEvaluated(a),
        None => e matches NodeError::InputNotConnected { node_id, node: label, socket } && node_id == node && label@
            == t.shape(node).label@ && socket@ == t.shape(node).inputs@[s].name@,
    }
}

/// `v` feeds every input socket of `node`, in order.
pub open spec fn local_plan<T, R>(t: Topology<T>, cache: Cache<R>, node: GraphNodeId, v: Seq<ResolvedInput>) -> bool {
    v.len() == t.in_len(node) && forall|s: int| 0 <= s < v.len() ==> planned_input(t, cache, node, s) == Some(#[trigger] v[s])
}

/// `e` is the error of the first input socket of `node` that cannot be fed.
pub open spec fn local_plan_fails<T, R>(t: Topology<T>, cache: Cache<R>, node: GraphNodeId, e: NodeError) -> bool {
    exists|s: int|
        0 <= s < t.in_len(node) && planned_input(t, cache, node, s) is None && input_error(t, node, s, e) && forall|q: int|
            0 <= q < s ==> (#[trigger] planned_input(t, cache, node, q)) is Some
}

/// Where one input of a `Local` node comes from while it is evaluated chunk by chunk.
#[derive(Debug, Clone, Copy, PartialEq, Eq, Structural)]
pub enum ResolvedInput {
    /// The same chunk of output `socket` of a `Local` ancestor.
    Local { ancestor: GraphNodeId, socket: usize },
    /// Output `socket` of a `Global` ancestor's whole-terrain pass, resampled into each chunk.
    Global { ancestor: GraphNodeId, native_resolution: usize, socket: usize },
    /// An optional socket left unconnected: a blank tile.
    Neutral,
}

/// Resolves, socket by socket, where each input of the `Local` node `node_id` comes from; the
/// first socket that cannot be fed decides the error.
pub fn plan_local_inputs<T, R>(topology: &Topology<T>, cache: &Cache<R>, node_id: GraphNodeId) -> (r: Result<Vec<ResolvedInput>, NodeError>)
    requires
        topology.wf(),
        cache.wf(),
    ensures
        !topology.live(node_id) ==> r == Err::<Vec<ResolvedInput>, NodeError>(NodeError::NodeNotFound(node_id)),
        topology.live(node_id) ==> match r {
            Ok(v) => local_plan(*topology, *cache, node_id, v@),
            Err(e) => local_plan_fails(*topology, *cache, node_id, e),
        },
{
    let shape = match topology.shape_of(node_id) {
        Ok(sh) => sh,
        Err(e) => return Err(e),
    };
    let ins = match topology.inputs(node_id) {
        Ok(i) => i,
        Err(e) => return Err(e),
    };
    proof {
        assert(topology.inputs_at(node_id.0 as int).len() == topology.shape_at(node_id.0 as int).unwrap().inputs@.len());
    }
    let mut resolved: Vec<ResolvedInput> = Vec::new();
    let mut s: usize = 0;
    while s < ins.len()
        invariant
            topology.wf(),
            cache.wf(),
            topology.live(node_id),
            *shape == topology.shape(node_id),
            ins@.len() == topology.in_len(node_id),
            forall|q: int| 0 <= q < ins@.len() ==> ins@[q] == #[trigger] topology.input_of(node_id, q),
            s <= ins@.len(),
            resolved@.len() == s,
            forall|q: int| 0 <= q < s ==> planned_input(*topology, *cache, node_id, q) == Some(#[trigger] resolved@[q]),
        decreases ins@.len() - s,
    {
        proof {
            assert(ins@[s as int] == topology.input_of(node_id, s as int));
        }
        match ins[s] {
            Some((ancestor, socket)) => {
                proof {
                    assert(topology.feeds(ancestor, node_id));
                    lemma_feeder(*topology, ancestor, node_id);
                }
                let a = match topology.shape_of(ancestor) {
                    Ok(sh) => sh,
                    Err(e) => return Err(e),
                };
                match a.locality {
                    NodeLocality::Local => resolved.push(ResolvedInput::Local { ancestor, socket }),
                    NodeLocality::Global { native_resolution } => {
                        if cache.get(ancestor, EvalScope::Global(native_resolution)).is_none() {
                            proof {
                                assert(planned_input(*topology, *cache, node_id, s as int) is None);
                                assert(input_error(*topology, node_id, s as int, NodeError::NodeNotEvaluated(ancestor)));
                                lemma_planned_prefix(*topology, *cache, node_id, resolved@, s as int);
                            }
                            return Err(NodeError::NodeNotEvaluated(ancestor));
                        }
                        resolved.push(ResolvedInput::Global { ancestor, native_resolution, socket });
                    },
                }
            },
            None => {
                let socket_desc = &shape.inputs[s];
                if socket_desc.required {
                    let e = NodeError::InputNotConnected {
                        node_id,
                        node: shape.label.clone(),
                        socket: socket_desc.name.to_owned(),
                    };
                    proof {
                        lemma_planned_prefix(*topology, *cache, node_id, resolved@, s as int);
                        assert(topology.input_of(node_id, s as int) is None);
                        assert(planned_input(*topology, *cache, node_id, s as int) is None);
                        assert(input_error(*topology, node_id, s as int, e));
                    }
                    return Err(e);
                }
                resolved.push(ResolvedInput::Neutral);
            },
        }
        s = s + 1;
    }
    Ok(resolved)
}

proof fn lemma_planned_prefix<T, R>(t: Topology<T>, cache: Cache<R>, node: GraphNodeId, resolved: Seq<ResolvedInput>, s: int)
    requires
        0 <= s <= resolved.len(),
        forall|q: int| 0 <= q < s ==> planned_input(t, cache, node, q) == Some(#[trigger] resolved[q]),
    ensures
        forall|q: int| 0 <= q < s ==> (#[trigger] planned_input(t, cache, node, q)) is Some,
{
    assert forall|q: int| 0 <= q < s implies (#[trigger] planned_input(t, cache, node, q)) is Some by {
        assert(planned_input(t, cache, node, q) == Some(resolved[q]));
    }
}

/// The working size of `required_working_size`, or `None` where it does not fit in a `usize`.
pub fn checked_working_size<T>(topology: &Topology<T>, node_id: GraphNodeId, base_size: usize) -> (r: Result<Option<usize>, NodeError>)
    requires
        topology.wf(),
    ensures
        !topology.live(node_id) ==> r == Err::<Option<usize>, NodeError>(NodeError::NodeNotFound(node_id)),
        topology.live(node_id) ==> r is Ok,
        r matches Ok(o) ==> (o is Some <==> working_size(*topology, node_id, base_size) <= usize::MAX),
        r matches Ok(Some(n)) ==> n == working_size(*topology, node_id, base_size),
{
    let (_ancestors, member) = match ancestor_flags(topology, node_id) {
        Ok(p) => p,
        Err(e) => return Err(e),
    };
    let n = topology.slot_len();
    let mut padding: usize = 0;
    let mut i: usize = 0;
    while i < n
        invariant
            topology.wf(),
            topology.live(node_id),
            n == topology.slot_count(),
            member@.len() == n,
            forall|q: int| 0 <= q < n ==> (#[trigger] member@[q] <==> topology.ancestors(node_id).contains(GraphNodeId(q as usize))),
            forall|x: GraphNodeId| topology.ancestors(node_id).contains(x) ==> topology.live(x),
            i <= n,
            padding == margin_sum(*topology, node_id, i as nat),
        decreases n - i,
    {
        proof {
            lemma_margin_sum_mono(*topology, node_id, (i + 1) as nat, n as nat);
        }
        if member[i] {
            proof {
                assert(topology.ancestors(node_id).contains(GraphNodeId(i as usize)));
            }
            let shape = match topology.shape_of(GraphNodeId(i)) {
                Ok(s) => s,
                Err(e) => return Err(e),
            };
            let half = shape.size / 2 + shape.size % 2;
            let m = match shape.locality {
                NodeLocality::Global { .. } => if i == node_id.0 { half } else { 0 },
                NodeLocality::Local => half,
            };
            padding = match padding.checked_add(m) {
                Some(p) => p,
                None => return Ok(None),
            };
        }
        i = i + 1;
    }
    proof {
        lemma_margin_sum_mono(*topology, node_id, n as nat, n as nat);
    }
    match padding.checked_mul(2) {
        Some(twice) => Ok(base_size.checked_add(twice)),
        None => Ok(None),
    }
}

/// `n` cleared flags.
fn cleared(n: usize) -> (v: Vec<bool>)
    ensures
        v@.len() == n,
        forall|i: int| 0 <= i < n ==> !#[trigger] v@[i],
{
    let mut v: Vec<bool> = Vec::new();
    let mut k: usize = 0;
    while k < n
        invariant
            k <= n,
            v@.len() == k,
            forall|j: int| 0 <= j < k ==> !#[trigger] v@[j],
        decreases n - k,
    {
        v.push(false);
        k = k + 1;
    }
    v
}

/// One flag per slot below `n`, set for the slots `ids` names.
fn member_flags(n: usize, ids: &Vec<GraphNodeId>) -> (m: Vec<bool>)
    requires
        forall|q: int| 0 <= q < ids@.len() ==> (#[trigger] ids@[q]).0 < n,
    ensures
        m@.len() == n,
        forall|i: int| 0 <= i < n ==> (#[trigger] m@[i] <==> ids@.contains(GraphNodeId(i as usize))),
{
    let mut member = cleared(n);
    let mut j: usize = 0;
    while j < ids.len()
        invariant
            member@.len() == n,
            j <= ids@.len(),
            forall|q: int| 0 <= q < ids@.len() ==> (#[trigger] ids@[q]).0 < n,
            forall|i: int|
                0 <= i < n ==> (#[trigger] member@[i] <==> exists|q: int| 0 <= q < j && ids@[q] == GraphNodeId(i as usize)),
        decreases ids@.len() - j,
    {
        let a = ids[j];
        proof {
            assert(ids@[j as int].0 < n);
        }
        member.set(a.0, true);
        proof {
            assert forall|i: int|
                0 <= i < n implies (#[trigger] member@[i] <==> exists|q: int| 0 <= q < j + 1 && ids@[q] == GraphNodeId(i as usize)) by {
                if i == a.0 {
                    assert(ids@[j as int] == GraphNodeId(i as usize));
                }
                if exists|q: int| 0 <= q < j + 1 && ids@[q] == GraphNodeId(i as usize) {
                    let q = choose|q: int| 0 <= q < j + 1 && ids@[q] == GraphNodeId(i as usize);
                    if q == j {
                        assert(i == a.0);
                    }
                }
            }
        }
        j = j + 1;
    }
    proof {
        assert forall|i: int| 0 <= i < n implies (#[trigger] member@[i] <==> ids@.contains(GraphNodeId(i as usize))) by {
            if ids@.contains(GraphNodeId(i as usize)) {
                let q = choose|q: int| 0 <= q < ids@.len() && ids@[q] == GraphNodeId(i as usize);
                assert(0 <= q < j && ids@[q] == GraphNodeId(i as usize));
            }
        }
    }
    member
}

/// The ancestors of a live `node_id`, and one flag per slot telling which slots they are.
fn ancestor_flags<T>(topology: &Topology<T>, node_id: GraphNodeId) -> (r: Result<(Vec<GraphNodeId>, Vec<bool>), NodeError>)
    requires
        topology.wf(),
    ensures
        r is Ok <==> topology.live(node_id),
        r is Err ==> r == Err::<(Vec<GraphNodeId>, Vec<bool>), NodeError>(NodeError::NodeNotFound(node_id)),
        r matches Ok((v, m)) ==> {
            &&& v@.no_duplicates()
            &&& v@.to_set() == topology.ancestors(node_id)
            &&& forall|k: int| 0 <= k < v@.len() ==> topology.live(#[trigger] v@[k])
            &&& m@.len() == topology.slot_count()
            &&& forall|i: int|
                0 <= i < m@.len() ==> (#[trigger] m@[i] <==> topology.ancestors(node_id).contains(GraphNodeId(i as usize)))
        },
{
    let ancestors = match topology.collect_ancestors(node_id) {
        Ok(a) => a,
        Err(e) => return Err(e),
    };
    let n = topology.slot_len();
    let member = member_flags(n, &ancestors);
    proof {
        assert forall|i: int| 0 <= i < member@.len() implies (#[trigger] member@[i] <==> topology.ancestors(node_id).contains(
            GraphNodeId(i as usize),
        )) by {
            assert(ancestors@.to_set().contains(GraphNodeId(i as usize)) == ancestors@.contains(GraphNodeId(i as usize)));
        }
    }
    Ok((ancestors, member))
}

/// Every ancestor of `node_id` (see `Topology::collect_ancestors`) contributes its own kernel
/// margin, but a `Global` one other than `node_id` contributes nothing - they all end up sharing
/// one working-size tile.
pub fn required_working_size<T>(topology: &Topology<T>, node_id: GraphNodeId, base_size: usize) -> (r: Result<usize, NodeError>)
    requires
        topology.wf(),
        topology.live(node_id) ==> working_size(*topology, node_id, base_size) <= usize::MAX,
    ensures
        r is Ok <==> topology.live(node_id),
        r is Err ==> r == Err::<usize, NodeError>(NodeError::NodeNotFound(node_id)),
        r matches Ok(n) ==> n == working_size(*topology, node_id, base_size),
{
    let (_ancestors, member) = match ancestor_flags(topology, node_id) {
        Ok(p) => p,
        Err(e) => return Err(e),
    };
    let n = topology.slot_len();
    let mut padding: usize = 0;
    let mut i: usize = 0;
    while i < n
        invariant
            topology.wf(),
            topology.live(node_id),
            n == topology.slot_count(),
            member@.len() == n,
            forall|q: int| 0 <= q < n ==> (#[trigger] member@[q] <==> topology.ancestors(node_id).contains(GraphNodeId(q as usize))),
            forall|x: GraphNodeId| topology.ancestors(node_id).contains(x) ==> topology.live(x),
            i <= n,
            padding == margin_sum(*topology, node_id, i as nat),
            base_size + 2 * margin_sum(*topology, node_id, n as nat) <= usize::MAX,
        decreases n - i,
    {
        proof {
            lemma_margin_sum_mono(*topology, node_id, (i + 1) as nat, n as nat);
        }
        if member[i] {
            proof {
                assert(topology.ancestors(node_id).contains(GraphNodeId(i as usize)));
            }
            let shape = match topology.shape_of(GraphNodeId(i)) {
                Ok(s) => s,
                Err(e) => return Err(e),
            };
            let half = shape.size / 2 + shape.size % 2;
            let m = match shape.locality {
                NodeLocality::Global { .. } => if i == node_id.0 { half } else { 0 },
                NodeLocality::Local => half,
            };
            padding = padding + m;
        }
        i = i + 1;
    }
    Ok(base_size + 2 * padding)
}

/// `order` lists each ancestor of `root` once, and every ancestor that feeds one of them comes
/// before it.
pub open spec fn is_topological_order<T>(t: Topology<T>, root: GraphNodeId, order: Seq<GraphNodeId>) -> bool {
    &&& order.no_duplicates()
    &&& order.to_set() == t.ancestors(root)
    &&& forall|i: int, j: int|
        0 <= i < order.len() && 0 <= j < order.len() && #[trigger] t.feeds(order[j], order[i]) ==> j < i
}

/// The node an order of its ancestors is built for comes last in it: every other ancestor feeds
/// some ancestor, which must come later.
pub proof fn lemma_topological_order_ends_at_root<T>(t: Topology<T>, root: GraphNodeId, order: Seq<GraphNodeId>)
    requires
        is_topological_order(t, root, order),
    ensures
        order.len() > 0,
        order.last() == root,
{
    let p0 = seq![root];
    assert(t.is_ancestor_path(root, p0));
    assert(t.ancestors(root).contains(root));
    assert(order.to_set().contains(root));
    let z = order.last();
    assert(order.to_set().contains(z));
    assert(t.ancestors(root).contains(z));
    if z != root {
        let p = choose|p: Seq<GraphNodeId>| #[trigger] t.is_ancestor_path(root, p) && p.last() == z;
        assert(p.len() > 1);
        let q = p.drop_last();
        let y = q.last();
        let k0: int = p.len() - 2;
        assert(0 <= k0 < p.len() - 1);
        assert(t.expands(p[k0], root));
        assert(t.feeds(p[k0 + 1], p[k0]));
        assert(p[k0 + 1] == z && p[k0] == y);
        assert forall|k: int| 0 <= k < q.len() - 1 implies #[trigger] t.expands(q[k], root) && t.feeds(q[k + 1], q[k]) by {
            assert(0 <= k < p.len() - 1);
            assert(t.expands(p[k], root));
            assert(t.feeds(p[k + 1], p[k]));
            assert(q[k] == p[k] && q[k + 1] == p[k + 1]);
        }
        assert(t.is_ancestor_path(root, q));
        assert(t.ancestors(root).contains(y));
        assert(order.to_set().contains(y));
        let j = choose|j: int| 0 <= j < order.len() && order[j] == y;
        let i = order.len() - 1;
        assert(t.feeds(order[i], order[j]));
    }
}

/// A node that feeds a live node of a well-formed topology is live, and lists it among its outputs.
pub proof fn lemma_feeder<T>(t: Topology<T>, f: GraphNodeId, x: GraphNodeId)
    requires
        t.wf(),
        t.live(x),
        t.feeds(f, x),
    ensures
        t.live(f),
        t.outputs_of(f).contains(x),
{
    let s = choose|s: int| 0 <= s < t.in_len(x) && (#[trigger] t.input_of(x, s)) is Some && t.input_of(x, s).unwrap().0 == f;
    t.lemma_input_edge(x, s);
    let fs = t.input_of(x, s).unwrap().1;
    let e = EdgeEntry { from_node: f, from_socket: fs, to_node: x, to_socket: s as usize };
    let k = choose|k: int| 0 <= k < t.edge_list().len() && t.edge_list()[k] == e;
    assert(t.edge_valid(t.edge_list()[k]));
    t.lemma_output_edge(f, x);
}

/// Whether every ancestor (flagged in `member`) that feeds `x` has been emitted.
fn sources_emitted<T>(topology: &Topology<T>, x: GraphNodeId, member: &Vec<bool>, emitted: &Vec<bool>) -> (r: Result<bool, NodeError>)
    requires
        topology.wf(),
        topology.live(x),
        member@.len() == topology.slot_count(),
        emitted@.len() == topology.slot_count(),
    ensures
        r matches Ok(b) && (b <==> forall|f: GraphNodeId|
            #[trigger] topology.feeds(f, x) && member@[f.0 as int] ==> emitted@[f.0 as int]),
{
    let ins = match topology.inputs(x) {
        Ok(i) => i,
        Err(e) => return Err(e),
    };
    proof {
        assert(topology.inputs_at(x.0 as int).len() == topology.shape_at(x.0 as int).unwrap().inputs@.len());
    }
    let mut s: usize = 0;
    while s < ins.len()
        invariant
            topology.wf(),
            topology.live(x),
            member@.len() == topology.slot_count(),
            emitted@.len() == topology.slot_count(),
            ins@.len() == topology.in_len(x),
            forall|q: int| 0 <= q < ins@.len() ==> ins@[q] == #[trigger] topology.input_of(x, q),
            s <= ins@.len(),
            forall|q: int|
                0 <= q < s && (#[trigger] topology.input_of(x, q)) is Some && member@[topology.input_of(x, q).unwrap().0.0 as int]
                    ==> emitted@[topology.input_of(x, q).unwrap().0.0 as int],
        decreases ins@.len() - s,
    {
        if let Some((f, _)) = ins[s] {
            proof {
                assert(topology.input_of(x, s as int) is Some);
                assert(topology.feeds(f, x));
                lemma_feeder(*topology, f, x);
            }
            if member[f.0] && !emitted[f.0] {
                proof {
                    assert(topology.feeds(f, x) && member@[f.0 as int] && !emitted@[f.0 as int]);
                }
                return Ok(false);
            }
        }
        s = s + 1;
    }
    proof {
        assert forall|f: GraphNodeId| #[trigger] topology.feeds(f, x) && member@[f.0 as int] implies emitted@[f.0 as int] by {
            let q = choose|q: int|
                0 <= q < topology.in_len(x) && (#[trigger] topology.input_of(x, q)) is Some && topology.input_of(x, q).unwrap().0 == f;
        }
    }
    Ok(true)
}

/// No order of `root`'s ancestors puts every feeder first when some of them, `stuck`, are each fed
/// by another of them: the earliest of them in the order would come after its feeder.
#[verifier::rlimit(50)]
proof fn lemma_stuck_blocks_order<T>(t: Topology<T>, root: GraphNodeId, o: Seq<GraphNodeId>, stuck: Set<GraphNodeId>, i: int)
    requires
        0 <= i < o.len(),
        stuck.contains(o[i]),
        stuck.subset_of(t.ancestors(root)),
        forall|x: GraphNodeId| #[trigger] stuck.contains(x) ==> exists|f: GraphNodeId| stuck.contains(f) && t.feeds(f, x),
    ensures
        !is_topological_order(t, root, o),
    decreases i,
{
    if is_topological_order(t, root, o) {
        let x = o[i];
        assert(stuck.contains(x));
        let f = choose|f: GraphNodeId| stuck.contains(f) && t.feeds(f, x);
        assert(t.ancestors(root).contains(f));
        assert(o.to_set().contains(f));
        let j = choose|j: int| 0 <= j < o.len() && o[j] == f;
        assert(t.feeds(o[j], o[i]));
        assert(j < i);
        lemma_stuck_blocks_order(t, root, o, stuck, j);
    }
}

/// The bookkeeping of Kahn's algorithm over the ancestors `anc`, one flag per slot: `member`
/// marks the ancestors, `queued` those found free (every ancestor feeding them emitted), `emitted`
/// those already placed in the order; `ready` holds the queued ones not yet emitted.
spec fn kahn_state<T>(
    t: Topology<T>,
    anc: Set<GraphNodeId>,
    member: Seq<bool>,
    emitted: Seq<bool>,
    queued: Seq<bool>,
    ready: Seq<GraphNodeId>,
) -> bool {
    let n = t.slot_count();
    &&& t.wf()
    &&& forall|x: GraphNodeId| anc.contains(x) ==> t.live(x)
    &&& member.len() == n
    &&& emitted.len() == n
    &&& queued.len() == n
    &&& forall|i: int| 0 <= i < n ==> (#[trigger] member[i] <==> anc.contains(GraphNodeId(i as usize)))
    &&& forall|i: int| 0 <= i < n && #[trigger] queued[i] ==> member[i]
    &&& forall|i: int| 0 <= i < n && #[trigger] emitted[i] ==> queued[i]
    &&& forall|x: GraphNodeId| #[trigger] ready.contains(x) <==> (x.0 < n && queued[x.0 as int] && !emitted[x.0 as int])
    &&& ready.no_duplicates()
    &&& count_true(queued) <= n
    &&& forall|i: int, f: GraphNodeId|
        0 <= i < n && queued[i] && #[trigger] t.feeds(f, GraphNodeId(i as usize)) && anc.contains(f) ==> emitted[f.0 as int]
}

/// Every ancestor not yet queued is fed by an ancestor not yet emitted.
spec fn kahn_blocked<T>(t: Topology<T>, anc: Set<GraphNodeId>, member: Seq<bool>, emitted: Seq<bool>, queued: Seq<bool>) -> bool {
    forall|i: int|
        0 <= i < t.slot_count() && member[i] && !#[trigger] queued[i] ==> exists|f: GraphNodeId|
            anc.contains(f) && t.feeds(f, GraphNodeId(i as usize)) && !emitted[f.0 as int]
}

/// How far Kahn's algorithm is from running out of work.
spec fn kahn_measure(n: nat, queued: Seq<bool>, ready: Seq<GraphNodeId>) -> int {
    2 * (n - count_true(queued)) + ready.len()
}

/// Queues `x` if it is an ancestor not yet queued whose ancestor feeders are all emitted.
fn try_queue<T>(
    topology: &Topology<T>,
    Ghost(anc): Ghost<Set<GraphNodeId>>,
    x: GraphNodeId,
    member: &Vec<bool>,
    emitted: &Vec<bool>,
    queued: &mut Vec<bool>,
    ready: &mut Vec<GraphNodeId>,
) -> (r: Result<(), NodeError>)
    requires
        kahn_state(*topology, anc, member@, emitted@, old(queued)@, old(ready)@),
        topology.live(x),
    ensures
        r is Ok,
        kahn_state(*topology, anc, member@, emitted@, final(queued)@, final(ready)@),
        kahn_measure(topology.slot_count(), final(queued)@, final(ready)@) <= kahn_measure(
            topology.slot_count(),
            old(queued)@,
            old(ready)@,
        ),
        forall|i: int| 0 <= i < topology.slot_count() && old(queued)@[i] ==> #[trigger] final(queued)@[i],
        member@[x.0 as int] && !final(queued)@[x.0 as int] ==> exists|f: GraphNodeId|
            anc.contains(f) && topology.feeds(f, x) && !emitted@[f.0 as int],
        forall|i: int| 0 <= i < topology.slot_count() && i != x.0 ==> #[trigger] final(queued)@[i] == old(queued)@[i],
{
    let ghost n = topology.slot_count();
    if member[x.0] && !queued[x.0] {
        let free = match sources_emitted(topology, x, member, emitted) {
            Ok(b) => b,
            Err(e) => return Err(e),
        };
        if free {
            let ghost q0 = queued@;
            let ghost rd0 = ready@;
            proof {
                lemma_count_true_set(queued@, x.0 as int);
                assert(!rd0.contains(x));
                lemma_push_contains(rd0, x);
            }
            queued.set(x.0, true);
            ready.push(x);
            proof {
                lemma_count_true_bound(queued@);
                assert forall|y: GraphNodeId| #[trigger] ready@.contains(y) <==> (y.0 < n && queued@[y.0 as int]
                    && !emitted@[y.0 as int]) by {
                    if y.0 == x.0 {
                        assert(y == x);
                    }
                }
                assert forall|i: int, f: GraphNodeId|
                    0 <= i < n && queued@[i] && #[trigger] topology.feeds(f, GraphNodeId(i as usize)) && anc.contains(f)
                        implies emitted@[f.0 as int] by {
                    if i == x.0 {
                        assert(GraphNodeId(i as usize) == x);
                        lemma_feeder(*topology, f, x);
                        assert(GraphNodeId(f.0 as usize) == f);
                        assert(member@[f.0 as int]);
                    } else {
                        assert(q0[i]);
                    }
                }
            }
        } else {
            proof {
                let f = choose|f: GraphNodeId| #[trigger] topology.feeds(f, x) && member@[f.0 as int] && !emitted@[f.0 as int];
                lemma_feeder(*topology, f, x);
                assert(GraphNodeId(f.0 as usize) == f);
                assert(anc.contains(f));
            }
        }
    }
    Ok(())
}

/// Queues the ancestors among `outs` whose ancestor feeders are now all emitted.
fn release_outputs<T>(
    topology: &Topology<T>,
    Ghost(anc): Ghost<Set<GraphNodeId>>,
    id: GraphNodeId,
    outs: &[GraphNodeId],
    member: &Vec<bool>,
    emitted: &Vec<bool>,
    queued: &mut Vec<bool>,
    ready: &mut Vec<GraphNodeId>,
) -> (r: Result<(), NodeError>)
    requires
        kahn_state(*topology, anc, member@, emitted@, old(queued)@, old(ready)@),
        topology.live(id),
        outs@ == topology.outputs_of(id),
        forall|i: int|
            0 <= i < topology.slot_count() && member@[i] && !#[trigger] old(queued)@[i] ==> (exists|f: GraphNodeId|
                anc.contains(f) && topology.feeds(f, GraphNodeId(i as usize)) && !emitted@[f.0 as int])
                || outs@.contains(GraphNodeId(i as usize)),
    ensures
        r is Ok,
        kahn_state(*topology, anc, member@, emitted@, final(queued)@, final(ready)@),
        kahn_blocked(*topology, anc, member@, emitted@, final(queued)@),
        kahn_measure(topology.slot_count(), final(queued)@, final(ready)@) <= kahn_measure(
            topology.slot_count(),
            old(queued)@,
            old(ready)@,
        ),
{
    let n = topology.slot_len();
    let mut j: usize = 0;
    while j < outs.len()
        invariant
            kahn_state(*topology, anc, member@, emitted@, queued@, ready@),
            topology.live(id),
            outs@ == topology.outputs_of(id),
            j <= outs@.len(),
            n == topology.slot_count(),
            kahn_measure(n as nat, queued@, ready@) <= kahn_measure(n as nat, old(queued)@, old(ready)@),
            forall|i: int|
                0 <= i < n && member@[i] && !#[trigger] queued@[i] ==> (exists|f: GraphNodeId|
                    anc.contains(f) && topology.feeds(f, GraphNodeId(i as usize)) && !emitted@[f.0 as int])
                    || (exists|q: int| j <= q < outs@.len() && outs@[q] == GraphNodeId(i as usize)),
        decreases outs@.len() - j,
    {
        let out = outs[j];
        proof {
            assert(topology.outputs_of(id).contains(out));
            lemma_output_live(*topology, id, out);
        }
        let ghost q0 = queued@;
        match try_queue(topology, Ghost(anc), out, member, emitted, queued, ready) {
            Ok(()) => {},
            Err(e) => return Err(e),
        }
        proof {
            assert forall|i: int|
                0 <= i < n && member@[i] && !#[trigger] queued@[i] implies (exists|f: GraphNodeId|
                    anc.contains(f) && topology.feeds(f, GraphNodeId(i as usize)) && !emitted@[f.0 as int])
                    || (exists|q: int| j + 1 <= q < outs@.len() && outs@[q] == GraphNodeId(i as usize)) by {
                if i == out.0 {
                    assert(GraphNodeId(i as usize) == out);
                } else {
                    assert(!q0[i]);
                    if !(exists|f: GraphNodeId| anc.contains(f) && topology.feeds(f, GraphNodeId(i as usize)) && !emitted@[f.0 as int]) {
                        let q = choose|q: int| j <= q < outs@.len() && outs@[q] == GraphNodeId(i as usize);
                        if q == j {
                            assert(outs@[j as int] == out);
                            assert(out.0 == i);
                        }
                    }
                }
            }
        }
        j = j + 1;
    }
    Ok(())
}

/// If Kahn's algorithm ran out of work before emitting every ancestor, no topological order exists.
proof fn lemma_leftover_means_cycle<T>(
    t: Topology<T>,
    root: GraphNodeId,
    anc: Set<GraphNodeId>,
    member: Seq<bool>,
    emitted: Seq<bool>,
    queued: Seq<bool>,
    order: Seq<GraphNodeId>,
    x0: GraphNodeId,
)
    requires
        anc == t.ancestors(root),
        kahn_state(t, anc, member, emitted, queued, Seq::empty()),
        kahn_blocked(t, anc, member, emitted, queued),
        forall|x: GraphNodeId| #[trigger] order.contains(x) <==> (x.0 < t.slot_count() && emitted[x.0 as int]),
        anc.contains(x0),
        !order.contains(x0),
    ensures
        forall|o: Seq<GraphNodeId>| !is_topological_order(t, root, o),
{
    let stuck = Set::new(|x: GraphNodeId| anc.contains(x) && !order.contains(x));
    assert forall|x: GraphNodeId| #[trigger] stuck.contains(x) implies exists|f: GraphNodeId|
        stuck.contains(f) && t.feeds(f, x) by {
        assert(t.live(x));
        assert(GraphNodeId(x.0 as usize) == x);
        assert(member[x.0 as int]);
        assert(!emitted[x.0 as int]);
        assert(!Seq::<GraphNodeId>::empty().contains(x));
        assert(!queued[x.0 as int]);
        let f = choose|f: GraphNodeId| anc.contains(f) && t.feeds(f, GraphNodeId(x.0 as usize)) && !emitted[f.0 as int];
        assert(t.live(f));
        assert(!order.contains(f));
        assert(stuck.contains(f));
    }
    assert forall|o: Seq<GraphNodeId>| !is_topological_order(t, root, o) by {
        if is_topological_order(t, root, o) {
            assert(o.to_set().contains(x0));
            let i = choose|i: int| 0 <= i < o.len() && o[i] == x0;
            lemma_stuck_blocks_order(t, root, o, stuck, i);
        }
    }
}

/// Kahn's algorithm over `node_id`'s ancestors: a node is emitted once every ancestor feeding it
/// has been. Fails with `CyclicGraph` when some ancestors are never freed, which happens exactly
/// when no such order exists.
pub fn topological_order<T>(topology: &Topology<T>, node_id: GraphNodeId) -> (r: Result<Vec<GraphNodeId>, NodeError>)
    requires
        topology.wf(),
    ensures
        !topology.live(node_id) ==> r == Err::<Vec<GraphNodeId>, NodeError>(NodeError::NodeNotFound(node_id)),
        topology.live(node_id) ==> match r {
            Ok(o) => is_topological_order(*topology, node_id, o@) && o@.len() > 0 && o@.last() == node_id,
            Err(e) => e == NodeError::CyclicGraph && forall|o: Seq<GraphNodeId>| !is_topological_order(*topology, node_id, o),
        },
{
    let (ancestors, member) = match ancestor_flags(topology, node_id) {
        Ok(p) => p,
        Err(e) => return Err(e),
    };
    let ghost anc = topology.ancestors(node_id);
    let n = topology.slot_len();
    let mut emitted = cleared(n);
    let mut queued = cleared(n);
    let mut ready: Vec<GraphNodeId> = Vec::new();
    let mut order: Vec<GraphNodeId> = Vec::new();
    proof {
        assert forall|x: GraphNodeId| anc.contains(x) implies topology.live(x) by {
            assert(ancestors@.to_set().contains(x));
            let k = choose|k: int| 0 <= k < ancestors@.len() && ancestors@[k] == x;
            assert(topology.live(ancestors@[k]));
        }
        lemma_count_false(n as nat);
        assert(queued@ =~= Seq::new(n as nat, |j: int| false));
    }
    let mut k: usize = 0;
    while k < ancestors.len()
        invariant
            kahn_state(*topology, anc, member@, emitted@, queued@, ready@),
            anc == topology.ancestors(node_id),
            ancestors@.to_set() == anc,
            n == topology.slot_count(),
            forall|i: int| 0 <= i < n ==> !#[trigger] emitted@[i],
            forall|i: int|
                0 <= i < n && member@[i] && !#[trigger] queued@[i] ==> (exists|f: GraphNodeId|
                    anc.contains(f) && topology.feeds(f, GraphNodeId(i as usize)) && !emitted@[f.0 as int])
                    || (exists|q: int| k <= q < ancestors@.len() && ancestors@[q] == GraphNodeId(i as usize)),
            k <= ancestors@.len(),
        decreases ancestors@.len() - k,
    {
        let x = ancestors[k];
        proof {
            assert(ancestors@.to_set().contains(x));
        }
        let ghost q0 = queued@;
        match try_queue(topology, Ghost(anc), x, &member, &emitted, &mut queued, &mut ready) {
            Ok(()) => {},
            Err(e) => return Err(e),
        }
        proof {
            assert forall|i: int|
                0 <= i < n && member@[i] && !#[trigger] queued@[i] implies (exists|f: GraphNodeId|
                    anc.contains(f) && topology.feeds(f, GraphNodeId(i as usize)) && !emitted@[f.0 as int])
                    || (exists|q: int| k + 1 <= q < ancestors@.len() && ancestors@[q] == GraphNodeId(i as usize)) by {
                if i == x.0 {
                    assert(GraphNodeId(i as usize) == x);
                } else {
                    assert(!q0[i]);
                    if !(exists|f: GraphNodeId| anc.contains(f) && topology.feeds(f, GraphNodeId(i as usize)) && !emitted@[f.0 as int]) {
                        let q = choose|q: int| k <= q < ancestors@.len() && ancestors@[q] == GraphNodeId(i as usize);
                        assert(q != k);
                    }
                }
            }
        }
        k = k + 1;
    }
    while ready.len() > 0
        invariant
            kahn_state(*topology, anc, member@, emitted@, queued@, ready@),
            kahn_blocked(*topology, anc, member@, emitted@, queued@),
            anc == topology.ancestors(node_id),
            n == topology.slot_count(),
            forall|x: GraphNodeId| #[trigger] order@.contains(x) <==> (x.0 < n && emitted@[x.0 as int]),
            order@.no_duplicates(),
            forall|i: int, j: int|
                0 <= i < order@.len() && 0 <= j < order@.len() && #[trigger] topology.feeds(order@[j], order@[i]) ==> j < i,
        decreases kahn_measure(n as nat, queued@, ready@),
    {
        let ghost m0 = kahn_measure(n as nat, queued@, ready@);
        let ghost r0 = ready@;
        let id = ready.pop().unwrap();
        proof {
            assert(r0.contains(id));
            lemma_drop_last_contains(r0);
        }
        let ghost e0 = emitted@;
        let ghost o0 = order@;
        order.push(id);
        emitted.set(id.0, true);
        proof {
            assert(!o0.contains(id));
            lemma_push_contains(o0, id);
            assert forall|i: int, j: int|
                0 <= i < order@.len() && 0 <= j < order@.len() && #[trigger] topology.feeds(order@[j], order@[i]) implies j < i by {
                if j == o0.len() {
                    let x = order@[i];
                    if i < o0.len() {
                        assert(o0[i] == x);
                        assert(o0.contains(x));
                    }
                    assert(x.0 < n && queued@[x.0 as int]);
                    assert(GraphNodeId(x.0 as usize) == x);
                    assert(topology.feeds(id, GraphNodeId(x.0 as usize)));
                    assert(e0[id.0 as int]);
                } else if i < o0.len() {
                    assert(o0[i] == order@[i] && o0[j] == order@[j]);
                }
            }
            assert forall|x: GraphNodeId| #[trigger] ready@.contains(x) <==> (x.0 < n && queued@[x.0 as int] && !emitted@[x.0 as int]) by {
                if x.0 == id.0 {
                    assert(x == id);
                }
            }
            assert forall|i: int, f: GraphNodeId|
                0 <= i < n && queued@[i] && #[trigger] topology.feeds(f, GraphNodeId(i as usize)) && anc.contains(f)
                    implies emitted@[f.0 as int] by {
                assert(e0[f.0 as int]);
            }
        }
        let outs = match topology.outputs(id) {
            Ok(o) => o,
            Err(e) => return Err(e),
        };
        proof {
            assert forall|i: int|
                0 <= i < n && member@[i] && !#[trigger] queued@[i] implies (exists|f: GraphNodeId|
                    anc.contains(f) && topology.feeds(f, GraphNodeId(i as usize)) && !emitted@[f.0 as int])
                    || outs@.contains(GraphNodeId(i as usize)) by {
                let f = choose|f: GraphNodeId| anc.contains(f) && topology.feeds(f, GraphNodeId(i as usize)) && !e0[f.0 as int];
                if f == id {
                    lemma_feeder(*topology, id, GraphNodeId(i as usize));
                } else {
                    assert(f.0 != id.0);
                }
            }
        }
        match release_outputs(topology, Ghost(anc), id, outs, &member, &emitted, &mut queued, &mut ready) {
            Ok(()) => {},
            Err(e) => return Err(e),
        }
    }
    proof {
        assert forall|x: GraphNodeId| order@.to_set().contains(x) implies anc.contains(x) by {
            assert(order@.contains(x));
            assert(member@[x.0 as int]);
            assert(GraphNodeId(x.0 as usize) == x);
        }
        order@.unique_seq_to_set();
        ancestors@.unique_seq_to_set();
        vstd::seq_lib::seq_to_set_is_finite(order@);
        vstd::seq_lib::seq_to_set_is_finite(ancestors@);
        assert(ready@ =~= Seq::<GraphNodeId>::empty());
    }
    if order.len() != ancestors.len() {
        proof {
            if forall|x: GraphNodeId| anc.contains(x) ==> order@.contains(x) {
                assert(order@.to_set() =~= anc);
                assert(false);
            }
            let x0 = choose|x: GraphNodeId| anc.contains(x) && !order@.contains(x);
            lemma_leftover_means_cycle(*topology, node_id, anc, member@, emitted@, queued@, order@, x0);
        }
        return Err(NodeError::CyclicGraph);
    }
    proof {
        vstd::set_lib::lemma_subset_equality(order@.to_set(), anc);
        lemma_topological_order_ends_at_root(*topology, node_id, order@);
    }
    Ok(order)
}

/// Whether everything `x` owes is cached: its single whole-terrain pass for a `Global` node, the
/// output of every chunk of the grid for a `Local` one.
pub open spec fn is_ready<T, R>(t: Topology<T>, grid: ChunkGrid, cache: Cache<R>, x: GraphNodeId) -> bool {
    match t.shape(x).locality {
        NodeLocality::Global { native_resolution } => cache.cached(x, EvalScope::Global(native_resolution)) is Some,
        NodeLocality::Local => forall|k: int|
            0 <= k < grid.coord_seq().len() ==> (#[trigger] cache.cached(x, EvalScope::Chunk(grid.coord_seq()[k]))) is Some,
    }
}

/// Some topological order of `root`'s ancestors exists, and every ancestor is fully cached.
pub open spec fn all_ready<T, R>(t: Topology<T>, grid: ChunkGrid, cache: Cache<R>, root: GraphNodeId) -> bool {
    &&& exists|o: Seq<GraphNodeId>| is_topological_order(t, root, o)
    &&& forall|x: GraphNodeId| #[trigger] t.ancestors(root).contains(x) ==> is_ready(t, grid, cache, x)
}

/// `c` is the first ancestor of `root` not fully cached, in some topological order of them.
pub open spec fn first_unready<T, R>(t: Topology<T>, grid: ChunkGrid, cache: Cache<R>, root: GraphNodeId, c: GraphNodeId) -> bool {
    exists|o: Seq<GraphNodeId>, i: int|
        #![trigger is_topological_order(t, root, o), o[i]]
        is_topological_order(t, root, o) && 0 <= i < o.len() && o[i] == c && !is_ready(t, grid, cache, c)
            && forall|j: int| 0 <= j < i ==> is_ready(t, grid, cache, #[trigger] o[j])
}

/// Whether node `x` is fully cached (see `is_ready`); `coords` are the grid's chunks.
fn node_ready<T, R>(topology: &Topology<T>, grid: &ChunkGrid, coords: &Vec<ChunkCoord>, cache: &Cache<R>, x: GraphNodeId) -> (r: Result<bool, NodeError>)
    requires
        topology.wf(),
        cache.wf(),
        coords@ == grid.coord_seq(),
    ensures
        r is Ok <==> topology.live(x),
        r is Err ==> r == Err::<bool, NodeError>(NodeError::NodeNotFound(x)),
        r matches Ok(b) ==> b == is_ready(*topology, *grid, *cache, x),
{
    let shape = match topology.shape_of(x) {
        Ok(s) => s,
        Err(e) => return Err(e),
    };
    match shape.locality {
        NodeLocality::Global { native_resolution } => Ok(cache.get(x, EvalScope::Global(native_resolution)).is_some()),
        NodeLocality::Local => {
            let mut k: usize = 0;
            while k < coords.len()
                invariant
                    cache.wf(),
                    topology.live(x),
                    topology.shape(x).locality == NodeLocality::Local,
                    coords@ == grid.coord_seq(),
                    k <= coords@.len(),
                    forall|q: int| 0 <= q < k ==> (#[trigger] cache.cached(x, EvalScope::Chunk(grid.coord_seq()[q]))) is Some,
                decreases coords@.len() - k,
            {
                if cache.get(x, EvalScope::Chunk(coords[k])).is_none() {
                    proof {
                        assert(cache.cached(x, EvalScope::Chunk(grid.coord_seq()[k as int])) is None);
                    }
                    return Ok(false);
                }
                k = k + 1;
            }
            Ok(true)
        }
    }
}

/// The first ancestor of `node_id`, in topological order, that is not fully cached yet - the
/// next node to evaluate - or `None` once all of them are.
pub fn next_to_spawn<T, R>(topology: &Topology<T>, chunk_grid: &ChunkGrid, cache: &Cache<R>, node_id: GraphNodeId) -> (r: Result<Option<GraphNodeId>, NodeError>)
    requires
        topology.wf(),
        cache.wf(),
        chunk_grid.chunk_count() <= usize::MAX,
    ensures
        !topology.live(node_id) ==> r == Err::<Option<GraphNodeId>, NodeError>(NodeError::NodeNotFound(node_id)),
        topology.live(node_id) ==> match r {
            Ok(None) => all_ready(*topology, *chunk_grid, *cache, node_id),
            Ok(Some(c)) => first_unready(*topology, *chunk_grid, *cache, node_id, c),
            Err(e) => e == NodeError::CyclicGraph && forall|o: Seq<GraphNodeId>| !is_topological_order(*topology, node_id, o),
        },
        r matches Ok(Some(c)) ==> {
            &&& topology.ancestors(node_id).contains(c)
            &&& !is_ready(*topology, *chunk_grid, *cache, c)
            &&& forall|f: GraphNodeId|
                #[trigger] topology.feeds(f, c) && topology.ancestors(node_id).contains(f) ==> is_ready(
                    *topology,
                    *chunk_grid,
                    *cache,
                    f,
                )
        },
{
    let order = match topological_order(topology, node_id) {
        Ok(o) => o,
        Err(e) => return Err(e),
    };
    let coords = chunk_grid.coords();
    let mut i: usize = 0;
    while i < order.len()
        invariant
            topology.wf(),
            cache.wf(),
            topology.live(node_id),
            is_topological_order(*topology, node_id, order@),
            coords@ == chunk_grid.coord_seq(),
            i <= order@.len(),
            forall|j: int| 0 <= j < i ==> is_ready(*topology, *chunk_grid, *cache, #[trigger] order@[j]),
        decreases order@.len() - i,
    {
        let c = order[i];
        proof {
            assert(order@.to_set().contains(c));
            lemma_ancestor_live(*topology, node_id, c);
        }
        let ready = match node_ready(topology, chunk_grid, &coords, cache, c) {
            Ok(b) => b,
            Err(e) => return Err(e),
        };
        if !ready {
            proof {
                assert(order@[i as int] == c);
                assert forall|f: GraphNodeId|
                    #[trigger] topology.feeds(f, c) && topology.ancestors(node_id).contains(f) implies is_ready(
                        *topology,
                        *chunk_grid,
                        *cache,
                        f,
                    ) by {
                    assert(order@.to_set().contains(f));
                    let j = choose|j: int| 0 <= j < order@.len() && order@[j] == f;
                    assert(topology.feeds(order@[j], order@[i as int]));
                }
            }
            return Ok(Some(c));
        }
        i = i + 1;
    }
    proof {
        assert forall|x: GraphNodeId| #[trigger] topology.ancestors(node_id).contains(x) implies is_ready(
            *topology,
            *chunk_grid,
            *cache,
            x,
        ) by {
            assert(order@.to_set().contains(x));
            let j = choose|j: int| 0 <= j < order@.len() && order@[j] == x;
        }
    }
    Ok(None)
}

/// The ancestors of a live node of a well-formed topology are live.
pub proof fn lemma_ancestor_live<T>(t: Topology<T>, root: GraphNodeId, x: GraphNodeId)
    requires
        t.wf(),
        t.live(root),
        t.ancestors(root).contains(x),
    ensures
        t.live(x),
{
    let p = choose|p: Seq<GraphNodeId>| #[trigger] t.is_ancestor_path(root, p) && p.last() == x;
    if p.len() > 1 {
        let k = p.len() - 2;
        assert(t.expands(p[k], root) && t.feeds(p[k + 1], p[k]));
        lemma_path_live(t, root, p, k);
        lemma_feeder(t, p[k + 1], p[k]);
    }
}

proof fn lemma_path_live<T>(t: Topology<T>, root: GraphNodeId, p: Seq<GraphNodeId>, k: int)
    requires
        t.wf(),
        t.live(root),
        t.is_ancestor_path(root, p),
        0 <= k < p.len(),
    ensures
        t.live(p[k]),
    decreases k,
{
    if k > 0 {
        let j = k - 1;
        lemma_path_live(t, root, p, j);
        assert(t.expands(p[j], root) && t.feeds(p[j + 1], p[j]));
        lemma_feeder(t, p[j + 1], p[j]);
    }
}

proof fn lemma_margin_sum_mono<T>(t: Topology<T>, root: GraphNodeId, a: nat, b: nat)
    requires
        a <= b,
    ensures
        margin_sum(t, root, a) <= margin_sum(t, root, b),
    decreases b,
{
    if a < b {
        lemma_margin_sum_mono(t, root, a, (b - 1) as nat);
    }
}

} // verus!
