//! Evaluating a node over the terrain's whole extent rather than chunk by chunk: the `Local`
//! ancestors it depends on are run afresh in that frame, while `Global` ones are read from their
//! cached whole-terrain pass. The plan lists the steps in the order they run; the driver runs them.

use vstd::prelude::*;

use crate::evaluation::cache::{Cache, EvalScope};
use crate::evaluation::plan::{is_topological_order, lemma_feeder, topological_order};
use crate::graph::eval::missing_input;
use crate::graph::topology::{GraphNodeId, Topology};
use crate::node::{NodeError, NodeLocality};

verus! {

/// One input of a node run in the frame.
#[derive(Debug, Clone, Copy, PartialEq, Eq, Structural)]
pub enum FrameInput {
    /// The tile picked by the step at this index.
    Picked(usize),
    /// An optional socket left unconnected: a blank tile.
    Blank,
}

/// One step of an evaluation in the frame, in the order it runs.
#[derive(Debug, Clone, PartialEq, Eq)]
pub enum FrameStep {
    /// The cached whole-terrain pass of the `Global` node `node`, cropped to `native_resolution`
    /// and resampled into the frame.
    Cached { node: GraphNodeId, native_resolution: usize },
    /// Run the `Local` node `node` on `inputs`.
    Process { node: GraphNodeId, inputs: Vec<FrameInput> },
    /// Output `socket` of what the step at index `step` yielded for `ancestor`; the evaluation
    /// fails with `OutputNotAvailable` when that step yielded no such output.
    Pick { step: usize, socket: usize, ancestor: GraphNodeId },
}

/// The resolution of a `Global` node's whole-terrain pass.
pub open spec fn native_resolution_of<T>(t: Topology<T>, g: GraphNodeId) -> usize {
    match t.shape(g).locality {
        NodeLocality::Global { native_resolution } => native_resolution,
        NodeLocality::Local => 0,
    }
}

/// The step at index `i` yields the outputs of node `a`.
pub open spec fn yields(steps: Seq<FrameStep>, i: int, a: GraphNodeId) -> bool {
    0 <= i < steps.len() && match steps[i] {
        FrameStep::Cached { node, .. } => node == a,
        FrameStep::Process { node, .. } => node == a,
        FrameStep::Pick { .. } => false,
    }
}

/// `input` is a pick, by a step before index `limit`, of output `sock` of a step that yields `a`.
pub open spec fn picked_from(steps: Seq<FrameStep>, input: FrameInput, a: GraphNodeId, sock: usize, limit: int) -> bool {
    match input {
        FrameInput::Picked(j) => 0 <= j < limit && j < steps.len() && match steps[j as int] {
            FrameStep::Pick { step, socket, ancestor } => ancestor == a && socket == sock && step < j && yields(steps, step as int, a),
            _ => false,
        },
        FrameInput::Blank => false,
    }
}

/// `inputs` feed the input sockets of `x` from steps before index `limit`: a wired socket
/// through a pick of its source's output from a step that yields that source, an unwired one,
/// which must be optional, with a blank tile.
pub open spec fn feeds_inputs<T>(t: Topology<T>, steps: Seq<FrameStep>, x: GraphNodeId, inputs: Seq<FrameInput>, limit: int) -> bool {
    &&& inputs.len() == t.in_len(x)
    &&& forall|s: int|
        0 <= s < inputs.len() ==> match t.input_of(x, s) {
            Some((a, sock)) => picked_from(steps, #[trigger] inputs[s], a, sock, limit),
            None => inputs[s] == FrameInput::Blank && !t.shape(x).inputs@[s].required,
        }
}

/// Every step is sound: a cached pass of a cached `Global` node, a pick from an earlier step, or
/// a run of a `Local` node on inputs fed from earlier steps.
pub open spec fn sound_steps<T, R>(t: Topology<T>, cache: Cache<R>, steps: Seq<FrameStep>) -> bool {
    forall|k: int|
        0 <= k < steps.len() ==> match #[trigger] steps[k] {
            FrameStep::Cached { node, native_resolution } => t.live(node) && t.shape(node).locality == (NodeLocality::Global {
                native_resolution,
            }) && cache.cached(node, EvalScope::Global(native_resolution)) is Some,
            FrameStep::Pick { step, .. } => step < k,
            FrameStep::Process { node, inputs } => t.live(node) && t.shape(node).locality == NodeLocality::Local && feeds_inputs(
                t,
                steps,
                node,
                inputs@,
                k,
            ),
        }
}

/// The evaluation in the frame of `root`'s inputs can run: `root` exists, its ancestors admit a
/// topological order, every ancestor it runs has its required input sockets wired, and every
/// `Global` ancestor it reads has its pass cached.
pub open spec fn frame_runs<T, R>(t: Topology<T>, cache: Cache<R>, root: GraphNodeId) -> bool {
    &&& t.live(root)
    &&& exists|o: Seq<GraphNodeId>| is_topological_order(t, root, o)
    &&& forall|x: GraphNodeId, s: int|
        #![trigger t.ancestors(root).contains(x), t.input_of(x, s)]
        t.ancestors(root).contains(x) && t.expands(x, root) ==> !missing_input(t, x, s)
    &&& forall|g: GraphNodeId|
        #[trigger] t.ancestors(root).contains(g) && !t.expands(g, root) ==> cache.cached(
            g,
            EvalScope::Global(native_resolution_of(t, g)),
        ) is Some
}

/// `e` names why the evaluation in the frame of `root`'s inputs cannot run: no topological
/// order, an ancestor it runs with a required socket unwired, or a `Global` ancestor it reads not
/// cached.
pub open spec fn frame_error<T, R>(t: Topology<T>, cache: Cache<R>, root: GraphNodeId, e: NodeError) -> bool {
    ||| e == NodeError::CyclicGraph && forall|o: Seq<GraphNodeId>| !is_topological_order(t, root, o)
    ||| exists|x: GraphNodeId, s: int|
        #![trigger t.ancestors(root).contains(x), t.input_of(x, s)]
        t.ancestors(root).contains(x) && t.expands(x, root) && missing_input(t, x, s) && (e matches NodeError::InputNotConnected {
            node_id,
            node,
            socket,
        } && node_id == x && node@ == t.shape(x).label@ && socket@ == t.shape(x).inputs@[s].name@)
    ||| exists|g: GraphNodeId|
        #[trigger] t.ancestors(root).contains(g) && !t.expands(g, root) && cache.cached(
            g,
            EvalScope::Global(native_resolution_of(t, g)),
        ) is None && e == NodeError::NodeNotEvaluated(g)
}

/// Node `x`, met while evaluating `root`'s inputs, passed its checks: every input socket of a node
/// that is run is wired to a node in `v`, or is optional; a `Global` node read has its pass cached.
pub open spec fn node_checked<T, R>(t: Topology<T>, cache: Cache<R>, root: GraphNodeId, x: GraphNodeId, v: Set<GraphNodeId>) -> bool {
    if t.expands(x, root) {
        forall|s: int|
            0 <= s < t.in_len(x) ==> match #[trigger] t.input_of(x, s) {
                Some((a, _)) => v.contains(a),
                None => !t.shape(x).inputs@[s].required,
            }
    } else {
        cache.cached(x, EvalScope::Global(native_resolution_of(t, x))) is Some
    }
}

/// Every node of `v` passed its checks.
pub open spec fn all_checked<T, R>(t: Topology<T>, cache: Cache<R>, root: GraphNodeId, v: Set<GraphNodeId>) -> bool {
    forall|x: GraphNodeId| #[trigger] v.contains(x) ==> node_checked(t, cache, root, x, v)
}

proof fn lemma_checked_union<T, R>(t: Topology<T>, cache: Cache<R>, root: GraphNodeId, a: Set<GraphNodeId>, b: Set<GraphNodeId>)
    requires
        all_checked(t, cache, root, a),
        all_checked(t, cache, root, b),
    ensures
        all_checked(t, cache, root, a.union(b)),
{
    assert forall|x: GraphNodeId| #[trigger] a.union(b).contains(x) implies node_checked(t, cache, root, x, a.union(b)) by {
        if a.contains(x) {
            assert(node_checked(t, cache, root, x, a));
        } else {
            assert(node_checked(t, cache, root, x, b));
        }
    }
}

proof fn lemma_steps_extend<T, R>(t: Topology<T>, cache: Cache<R>, old_steps: Seq<FrameStep>, steps: Seq<FrameStep>, x: GraphNodeId, inputs: Seq<FrameInput>, limit: int)
    requires
        old_steps.len() <= steps.len(),
        forall|k: int| 0 <= k < old_steps.len() ==> steps[k] == old_steps[k],
        limit <= old_steps.len(),
        feeds_inputs(t, old_steps, x, inputs, limit),
    ensures
        feeds_inputs(t, steps, x, inputs, limit),
{
    assert forall|s: int| 0 <= s < inputs.len() implies match t.input_of(x, s) {
        Some((a, sock)) => picked_from(steps, #[trigger] inputs[s], a, sock, limit),
        None => inputs[s] == FrameInput::Blank && !t.shape(x).inputs@[s].required,
    } by {
        if let Some((a, sock)) = t.input_of(x, s) {
            let j = inputs[s]->Picked_0;
            assert(steps[j as int] == old_steps[j as int]);
            let i = old_steps[j as int]->step;
            assert(steps[i as int] == old_steps[i as int]);
        }
    }
}

proof fn lemma_sound_push<T, R>(t: Topology<T>, cache: Cache<R>, steps: Seq<FrameStep>, step: FrameStep)
    requires
        sound_steps(t, cache, steps),
        match step {
            FrameStep::Cached { node, native_resolution } => t.live(node) && t.shape(node).locality == (NodeLocality::Global {
                native_resolution,
            }) && cache.cached(node, EvalScope::Global(native_resolution)) is Some,
            FrameStep::Pick { step: i, .. } => i < steps.len(),
            FrameStep::Process { node, inputs } => t.live(node) && t.shape(node).locality == NodeLocality::Local && feeds_inputs(
                t,
                steps,
                node,
                inputs@,
                steps.len() as int,
            ),
        },
    ensures
        sound_steps(t, cache, steps.push(step)),
{
    let s2 = steps.push(step);
    assert forall|k: int| 0 <= k < s2.len() implies match #[trigger] s2[k] {
        FrameStep::Cached { node, native_resolution } => t.live(node) && t.shape(node).locality == (NodeLocality::Global {
            native_resolution,
        }) && cache.cached(node, EvalScope::Global(native_resolution)) is Some,
        FrameStep::Pick { step, .. } => step < k,
        FrameStep::Process { node, inputs } => t.live(node) && t.shape(node).locality == NodeLocality::Local && feeds_inputs(
            t,
            s2,
            node,
            inputs@,
            k,
        ),
    } by {
        if k < steps.len() {
            assert(s2[k] == steps[k]);
            if let FrameStep::Process { node, inputs } = steps[k] {
                lemma_steps_extend(t, cache, steps, s2, node, inputs@, k);
            }
        } else {
            if let FrameStep::Process { node, inputs } = step {
                lemma_steps_extend(t, cache, steps, s2, node, inputs@, k);
            }
        }
    }
}

/// A node feeding an ancestor of `root` that `root`'s search looks through is an ancestor too.
proof fn lemma_ancestor_step<T>(t: Topology<T>, root: GraphNodeId, x: GraphNodeId, a: GraphNodeId)
    requires
        t.ancestors(root).contains(x),
        t.expands(x, root),
        t.feeds(a, x),
    ensures
        t.ancestors(root).contains(a),
{
    let p = choose|p: Seq<GraphNodeId>| #[trigger] t.is_ancestor_path(root, p) && p.last() == x;
    let p2 = p.push(a);
    assert forall|k: int| 0 <= k < p2.len() - 1 implies #[trigger] t.expands(p2[k], root) && t.feeds(p2[k + 1], p2[k]) by {
        if k < p.len() - 1 {
            assert(p2[k] == p[k] && p2[k + 1] == p[k + 1]);
            assert(t.expands(p[k], root));
        } else {
            assert(p2[k] == x && p2[k + 1] == a);
        }
    }
    assert(t.is_ancestor_path(root, p2));
}

/// Along a path from `root`, positions in a topological order decrease: every ancestor other than
/// `root` comes before it.
proof fn lemma_root_last<T>(t: Topology<T>, root: GraphNodeId, o: Seq<GraphNodeId>, p: Seq<GraphNodeId>, k: int)
    requires
        is_topological_order(t, root, o),
        t.is_ancestor_path(root, p),
        0 <= k < p.len(),
    ensures
        t.ancestors(root).contains(p[k]),
        o.index_of(p[k]) <= o.index_of(root),
        k > 0 ==> o.index_of(p[k]) < o.index_of(root),
    decreases k,
{
    assert(t.ancestors(root).contains(p[k])) by {
        let q = p.subrange(0, k + 1);
        assert forall|j: int| 0 <= j < q.len() - 1 implies #[trigger] t.expands(q[j], root) && t.feeds(q[j + 1], q[j]) by {
            assert(q[j] == p[j] && q[j + 1] == p[j + 1]);
            assert(t.expands(p[j], root));
        }
        assert(t.is_ancestor_path(root, q));
        assert(q.last() == p[k]);
    }
    assert(o.to_set().contains(p[k]));
    assert(o.contains(p[k]));
    if k > 0 {
        lemma_root_last(t, root, o, p, k - 1);
        assert(t.expands(p[k - 1], root) && t.feeds(p[k], p[k - 1]));
        assert(o.to_set().contains(p[k - 1]));
        let i = o.index_of(p[k]);
        let j = o.index_of(p[k - 1]);
        assert(o[i] == p[k] && o[j] == p[k - 1]);
        assert(t.feeds(o[i], o[j]));
    }
}

proof fn lemma_feeder_before<T>(t: Topology<T>, root: GraphNodeId, o: Seq<GraphNodeId>, x: GraphNodeId, a: GraphNodeId)
    requires
        is_topological_order(t, root, o),
        t.ancestors(root).contains(x),
        t.expands(x, root),
        t.feeds(a, x),
    ensures
        t.ancestors(root).contains(a),
        o.index_of(a) < o.index_of(x),
        o.index_of(a) < o.index_of(root),
        a != root,
{
    lemma_ancestor_step(t, root, x, a);
    assert(o.to_set().contains(a) && o.to_set().contains(x));
    let i = o.index_of(a);
    let j = o.index_of(x);
    assert(o.contains(a) && o.contains(x));
    assert(o[i] == a && o[j] == x);
    assert(t.feeds(o[i], o[j]));
    let p = choose|p: Seq<GraphNodeId>| #[trigger] t.is_ancestor_path(root, p) && p.last() == x;
    lemma_root_last(t, root, o, p, p.len() - 1);
}

/// Every ancestor of `root` lies in a set of checked nodes holding `root`.
proof fn lemma_checked_covers<T, R>(t: Topology<T>, cache: Cache<R>, root: GraphNodeId, v: Set<GraphNodeId>, p: Seq<GraphNodeId>, k: int)
    requires
        v.contains(root),
        all_checked(t, cache, root, v),
        t.is_ancestor_path(root, p),
        0 <= k < p.len(),
    ensures
        v.contains(p[k]),
    decreases k,
{
    if k > 0 {
        lemma_checked_covers(t, cache, root, v, p, k - 1);
        assert(t.expands(p[k - 1], root) && t.feeds(p[k], p[k - 1]));
        assert(node_checked(t, cache, root, p[k - 1], v));
        let s = choose|s: int|
            0 <= s < t.in_len(p[k - 1]) && (#[trigger] t.input_of(p[k - 1], s)) is Some && t.input_of(p[k - 1], s).unwrap().0
                == p[k];
    }
}

/// Plans the evaluation in the frame of the ancestor `x` of `root`: its cached pass if it is
/// `Global`, else a run of it on its inputs. Returns the index of the step that yields it.
fn eval_step<T, R>(
    t: &Topology<T>,
    cache: &Cache<R>,
    x: GraphNodeId,
    Ghost(root): Ghost<GraphNodeId>,
    Ghost(o): Ghost<Seq<GraphNodeId>>,
    steps: &mut Vec<FrameStep>,
) -> (r: (Result<usize, NodeError>, Ghost<Set<GraphNodeId>>))
    requires
        t.wf(),
        cache.wf(),
        t.live(root),
        is_topological_order(*t, root, o),
        t.ancestors(root).contains(x),
        x != root,
        sound_steps(*t, *cache, old(steps)@),
    ensures
        sound_steps(*t, *cache, final(steps)@),
        final(steps)@.len() >= old(steps)@.len(),
        forall|k: int| 0 <= k < old(steps)@.len() ==> final(steps)@[k] == old(steps)@[k],
        r.0 matches Ok(i) ==> yields(final(steps)@, i as int, x) && r.1@.contains(x) && r.1@.subset_of(t.ancestors(root))
            && all_checked(*t, *cache, root, r.1@),
        r.0 matches Err(e) ==> frame_error(*t, *cache, root, e),
    decreases o.index_of(x), 1int,
{
    proof {
        crate::evaluation::plan::lemma_ancestor_live(*t, root, x);
    }
    let shape = match t.shape_of(x) {
        Ok(s) => s,
        Err(e) => return (Err(e), Ghost(Set::empty())),
    };
    match shape.locality {
        NodeLocality::Global { native_resolution } => {
            if cache.get(x, EvalScope::Global(native_resolution)).is_none() {
                proof {
                    assert(!t.expands(x, root));
                    assert(native_resolution_of(*t, x) == native_resolution);
                }
                return (Err(NodeError::NodeNotEvaluated(x)), Ghost(Set::empty()));
            }
            let ghost s0 = steps@;
            let step = FrameStep::Cached { node: x, native_resolution };
            proof {
                lemma_sound_push(*t, *cache, s0, step);
            }
            steps.push(step);
            let ghost v = Set::empty().insert(x);
            proof {
                assert(node_checked(*t, *cache, root, x, v));
                assert(all_checked(*t, *cache, root, v));
            }
            (Ok(steps.len() - 1), Ghost(v))
        },
        NodeLocality::Local => {
            proof {
                assert(t.expands(x, root));
            }
            let (res, Ghost(v)) = resolve_step(t, cache, x, Ghost(root), Ghost(o), steps);
            match res {
                Ok(inputs) => {
                    let ghost s0 = steps@;
                    let step = FrameStep::Process { node: x, inputs };
                    proof {
                        lemma_sound_push(*t, *cache, s0, step);
                    }
                    steps.push(step);
                    let ghost v2 = v.insert(x);
                    proof {
                        assert(node_checked(*t, *cache, root, x, v));
                        assert forall|y: GraphNodeId| #[trigger] v2.contains(y) implies node_checked(*t, *cache, root, y, v2) by {
                            assert(node_checked(*t, *cache, root, y, v));
                        }
                    }
                    (Ok(steps.len() - 1), Ghost(v2))
                },
                Err(e) => (Err(e), Ghost(Set::empty())),
            }
        },
    }
}

/// Plans the inputs of the ancestor `x` of `root` that `root`'s evaluation runs, socket by
/// socket: the evaluation of each wired source, then a pick of its output.
fn resolve_step<T, R>(
    t: &Topology<T>,
    cache: &Cache<R>,
    x: GraphNodeId,
    Ghost(root): Ghost<GraphNodeId>,
    Ghost(o): Ghost<Seq<GraphNodeId>>,
    steps: &mut Vec<FrameStep>,
) -> (r: (Result<Vec<FrameInput>, NodeError>, Ghost<Set<GraphNodeId>>))
    requires
        t.wf(),
        cache.wf(),
        t.live(root),
        is_topological_order(*t, root, o),
        t.ancestors(root).contains(x),
        t.expands(x, root),
        sound_steps(*t, *cache, old(steps)@),
    ensures
        sound_steps(*t, *cache, final(steps)@),
        final(steps)@.len() >= old(steps)@.len(),
        forall|k: int| 0 <= k < old(steps)@.len() ==> final(steps)@[k] == old(steps)@[k],
        r.0 matches Ok(inputs) ==> feeds_inputs(*t, final(steps)@, x, inputs@, final(steps)@.len() as int) && r.1@.subset_of(
            t.ancestors(root),
        ) && all_checked(*t, *cache, root, r.1@) && node_checked(*t, *cache, root, x, r.1@),
        r.0 matches Err(e) ==> frame_error(*t, *cache, root, e),
    decreases o.index_of(x), 0int,
{
    proof {
        if x != root {
            crate::evaluation::plan::lemma_ancestor_live(*t, root, x);
        }
    }
    let shape = match t.shape_of(x) {
        Ok(s) => s,
        Err(e) => return (Err(e), Ghost(Set::empty())),
    };
    let ins = match t.inputs(x) {
        Ok(i) => i,
        Err(e) => return (Err(e), Ghost(Set::empty())),
    };
    proof {
        assert(t.inputs_at(x.0 as int).len() == t.shape_at(x.0 as int).unwrap().inputs@.len());
    }
    let ghost steps0 = steps@;
    let ghost mut v: Set<GraphNodeId> = Set::empty();
    let mut inputs: Vec<FrameInput> = Vec::new();
    let mut s: usize = 0;
    while s < ins.len()
        invariant
            t.wf(),
            cache.wf(),
            t.live(root),
            t.live(x),
            is_topological_order(*t, root, o),
            t.ancestors(root).contains(x),
            t.expands(x, root),
            *shape == t.shape(x),
            ins@.len() == t.in_len(x),
            forall|q: int| 0 <= q < ins@.len() ==> ins@[q] == #[trigger] t.input_of(x, q),
            s <= ins@.len(),
            inputs@.len() == s,
            sound_steps(*t, *cache, steps@),
            steps@.len() >= steps0.len(),
            forall|k: int| 0 <= k < steps0.len() ==> steps@[k] == steps0[k],
            steps0 == old(steps)@,
            v.subset_of(t.ancestors(root)),
            all_checked(*t, *cache, root, v),
            feeds_inputs_prefix(*t, steps@, x, inputs@, steps@.len() as int),
            forall|q: int|
                0 <= q < s ==> match #[trigger] t.input_of(x, q) {
                    Some((a, _)) => v.contains(a),
                    None => !t.shape(x).inputs@[q].required,
                },
        decreases ins@.len() - s,
    {
        proof {
            assert(ins@[s as int] == t.input_of(x, s as int));
        }
        match ins[s] {
            Some((ancestor, socket)) => {
                proof {
                    assert(t.feeds(ancestor, x));
                    lemma_feeder_before(*t, root, o, x, ancestor);
                }
                let ghost before = steps@;
                let (res, Ghost(va)) = eval_step(t, cache, ancestor, Ghost(root), Ghost(o), steps);
                let i = match res {
                    Ok(i) => i,
                    Err(e) => return (Err(e), Ghost(Set::empty())),
                };
                let ghost mid = steps@;
                let pick = FrameStep::Pick { step: i, socket, ancestor };
                proof {
                    lemma_sound_push(*t, *cache, mid, pick);
                    lemma_checked_union(*t, *cache, root, v, va);
                    lemma_prefix_extend(*t, before, mid, x, inputs@);
                }
                steps.push(pick);
                proof {
                    lemma_prefix_extend(*t, mid, steps@, x, inputs@);
                    v = v.union(va);
                }
                let ghost inputs0 = inputs@;
                inputs.push(FrameInput::Picked(steps.len() - 1));
                proof {
                    assert(steps@[steps@.len() - 1] == pick);
                    assert(yields(steps@, i as int, ancestor)) by {
                        assert(steps@[i as int] == mid[i as int]);
                    }
                    lemma_prefix_push(*t, steps@, x, inputs0, FrameInput::Picked((steps@.len() - 1) as usize));
                }
            },
            None => {
                let socket_desc = &shape.inputs[s];
                if socket_desc.required {
                    let e = NodeError::InputNotConnected { node_id: x, node: shape.label.clone(), socket: socket_desc.name.to_owned() };
                    proof {
                        assert(missing_input(*t, x, s as int));
                    }
                    return (Err(e), Ghost(Set::empty()));
                }
                let ghost inputs0 = inputs@;
                inputs.push(FrameInput::Blank);
                proof {
                    lemma_prefix_push(*t, steps@, x, inputs0, FrameInput::Blank);
                }
            },
        }
        s = s + 1;
    }
    proof {
        assert(feeds_inputs(*t, steps@, x, inputs@, steps@.len() as int));
        assert(node_checked(*t, *cache, root, x, v));
    }
    (Ok(inputs), Ghost(v))
}

/// The first `inputs.len()` input sockets of `x` are fed as `feeds_inputs` says.
pub open spec fn feeds_inputs_prefix<T>(t: Topology<T>, steps: Seq<FrameStep>, x: GraphNodeId, inputs: Seq<FrameInput>, limit: int) -> bool {
    forall|s: int|
        0 <= s < inputs.len() ==> match t.input_of(x, s) {
            Some((a, sock)) => picked_from(steps, #[trigger] inputs[s], a, sock, limit),
            None => inputs[s] == FrameInput::Blank && !t.shape(x).inputs@[s].required,
        }
}

proof fn lemma_prefix_extend<T>(t: Topology<T>, s1: Seq<FrameStep>, s2: Seq<FrameStep>, x: GraphNodeId, inputs: Seq<FrameInput>)
    requires
        s1.len() <= s2.len(),
        forall|k: int| 0 <= k < s1.len() ==> s2[k] == s1[k],
        feeds_inputs_prefix(t, s1, x, inputs, s1.len() as int),
    ensures
        feeds_inputs_prefix(t, s2, x, inputs, s2.len() as int),
{
    assert forall|s: int| 0 <= s < inputs.len() implies match t.input_of(x, s) {
        Some((a, sock)) => picked_from(s2, #[trigger] inputs[s], a, sock, s2.len() as int),
        None => inputs[s] == FrameInput::Blank && !t.shape(x).inputs@[s].required,
    } by {
        if let Some((a, sock)) = t.input_of(x, s) {
            let j = inputs[s]->Picked_0;
            assert(s2[j as int] == s1[j as int]);
            let i = s1[j as int]->step;
            assert(s2[i as int] == s1[i as int]);
        }
    }
}

proof fn lemma_prefix_push<T>(t: Topology<T>, steps: Seq<FrameStep>, x: GraphNodeId, inputs: Seq<FrameInput>, input: FrameInput)
    requires
        feeds_inputs_prefix(t, steps, x, inputs, steps.len() as int),
        match t.input_of(x, inputs.len() as int) {
            Some((a, sock)) => picked_from(steps, input, a, sock, steps.len() as int),
            None => input == FrameInput::Blank && !t.shape(x).inputs@[inputs.len() as int].required,
        },
    ensures
        feeds_inputs_prefix(t, steps, x, inputs.push(input), steps.len() as int),
{
    let i2 = inputs.push(input);
    assert forall|s: int| 0 <= s < i2.len() implies match t.input_of(x, s) {
        Some((a, sock)) => picked_from(steps, #[trigger] i2[s], a, sock, steps.len() as int),
        None => i2[s] == FrameInput::Blank && !t.shape(x).inputs@[s].required,
    } by {
        if s < inputs.len() {
            assert(i2[s] == inputs[s]);
        }
    }
}

/// Plans the evaluation, in the whole-terrain frame, of the inputs of `node_id` - the work before
/// a `Global` node's own pass. Returns the steps, in the order they run, and the inputs they
/// feed it; fails as soon as a step cannot be planned, keeping the steps planned before it,
/// which run first.
pub fn plan_frame_inputs<T, R>(topology: &Topology<T>, cache: &Cache<R>, node_id: GraphNodeId) -> (r: (
    Vec<FrameStep>,
    Result<Vec<FrameInput>, NodeError>,
))
    requires
        topology.wf(),
        cache.wf(),
    ensures
        sound_steps(*topology, *cache, r.0@),
        !topology.live(node_id) ==> r.1 == Err::<Vec<FrameInput>, NodeError>(NodeError::NodeNotFound(node_id)),
        topology.live(node_id) ==> (r.1 is Ok <==> frame_runs(*topology, *cache, node_id)),
        r.1 matches Ok(inputs) ==> feeds_inputs(*topology, r.0@, node_id, inputs@, r.0@.len() as int),
        topology.live(node_id) ==> (r.1 matches Err(e) ==> frame_error(*topology, *cache, node_id, e)),
{
    let mut steps: Vec<FrameStep> = Vec::new();
    let order = match topological_order(topology, node_id) {
        Ok(o) => o,
        Err(e) => {
            proof {
                if topology.live(node_id) {
                    assert(e == NodeError::CyclicGraph);
                }
            }
            return (steps, Err(e));
        },
    };
    proof {
        assert(topology.ancestors(node_id).contains(node_id)) by {
            assert(topology.is_ancestor_path(node_id, seq![node_id]));
        }
    }
    let (res, Ghost(v)) = resolve_step(topology, cache, node_id, Ghost(node_id), Ghost(order@), &mut steps);
    proof {
        if res is Ok {
            let v2 = v.insert(node_id);
            assert forall|y: GraphNodeId| #[trigger] v2.contains(y) implies node_checked(*topology, *cache, node_id, y, v2) by {
                assert(node_checked(*topology, *cache, node_id, y, v));
            }
            assert forall|x: GraphNodeId| #[trigger] topology.ancestors(node_id).contains(x) implies v2.contains(x) by {
                let p = choose|p: Seq<GraphNodeId>| #[trigger] topology.is_ancestor_path(node_id, p) && p.last() == x;
                lemma_checked_covers(*topology, *cache, node_id, v2, p, p.len() - 1);
            }
            assert forall|x: GraphNodeId, s: int|
                #![trigger topology.ancestors(node_id).contains(x), topology.input_of(x, s)]
                topology.ancestors(node_id).contains(x) && topology.expands(x, node_id) implies !missing_input(*topology, x, s) by {
                assert(v2.contains(x));
                assert(node_checked(*topology, *cache, node_id, x, v2));
            }
            assert forall|g: GraphNodeId|
                #[trigger] topology.ancestors(node_id).contains(g) && !topology.expands(g, node_id) implies cache.cached(
                    g,
                    EvalScope::Global(native_resolution_of(*topology, g)),
                ) is Some by {
                assert(v2.contains(g));
                assert(node_checked(*topology, *cache, node_id, g, v2));
            }
        } else {
            let e = res->Err_0;
            assert(frame_error(*topology, *cache, node_id, e));
            lemma_error_blocks(*topology, *cache, node_id, e);
        }
    }
    (steps, res)
}

/// Plans the evaluation of `node_id` itself in the whole-terrain frame: the cached pass of a
/// `Global` node, or the run of a `Local` one after the steps that feed it. Returns the steps and
/// the index of the one that yields `node_id`'s outputs; fails as `plan_frame_inputs` does.
pub fn plan_frame_eval<T, R>(topology: &Topology<T>, cache: &Cache<R>, node_id: GraphNodeId) -> (r: (
    Vec<FrameStep>,
    Result<usize, NodeError>,
))
    requires
        topology.wf(),
        cache.wf(),
    ensures
        sound_steps(*topology, *cache, r.0@),
        !topology.live(node_id) ==> r.1 == Err::<usize, NodeError>(NodeError::NodeNotFound(node_id)),
        r.1 matches Ok(i) ==> i == r.0@.len() - 1 && yields(r.0@, i as int, node_id),
        topology.live(node_id) ==> match topology.shape(node_id).locality {
            NodeLocality::Global { native_resolution } => (r.1 is Ok <==> cache.cached(node_id, EvalScope::Global(native_resolution)) is Some)
                && (r.1 is Err ==> r.1 == Err::<usize, NodeError>(NodeError::NodeNotEvaluated(node_id))),
            NodeLocality::Local => (r.1 is Ok <==> frame_runs(*topology, *cache, node_id)) && (r.1 matches Err(e) ==> frame_error(
                *topology,
                *cache,
                node_id,
                e,
            )),
        },
{
    let shape = match topology.shape_of(node_id) {
        Ok(s) => s,
        Err(e) => return (Vec::new(), Err(e)),
    };
    match shape.locality {
        NodeLocality::Global { native_resolution } => {
            if cache.get(node_id, EvalScope::Global(native_resolution)).is_none() {
                return (Vec::new(), Err(NodeError::NodeNotEvaluated(node_id)));
            }
            let mut steps: Vec<FrameStep> = Vec::new();
            let step = FrameStep::Cached { node: node_id, native_resolution };
            proof {
                lemma_sound_push(*topology, *cache, steps@, step);
            }
            steps.push(step);
            (steps, Ok(0))
        },
        NodeLocality::Local => {
            let (mut steps, res) = plan_frame_inputs(topology, cache, node_id);
            match res {
                Ok(inputs) => {
                    let step = FrameStep::Process { node: node_id, inputs };
                    proof {
                        lemma_sound_push(*topology, *cache, steps@, step);
                    }
                    steps.push(step);
                    let i = steps.len() - 1;
                    (steps, Ok(i))
                },
                Err(e) => (steps, Err(e)),
            }
        },
    }
}

/// A reason why the evaluation cannot run means it does not.
proof fn lemma_error_blocks<T, R>(t: Topology<T>, cache: Cache<R>, root: GraphNodeId, e: NodeError)
    requires
        frame_error(t, cache, root, e),
    ensures
        !frame_runs(t, cache, root),
{
    if frame_runs(t, cache, root) {
        if e == NodeError::CyclicGraph && forall|o: Seq<GraphNodeId>| !is_topological_order(t, root, o) {
            let o = choose|o: Seq<GraphNodeId>| is_topological_order(t, root, o);
            assert(!is_topological_order(t, root, o));
        } else if exists|x: GraphNodeId, s: int|
            #![trigger t.ancestors(root).contains(x), t.input_of(x, s)]
            t.ancestors(root).contains(x) && t.expands(x, root) && missing_input(t, x, s) && (e matches NodeError::InputNotConnected {
                node_id,
                node,
                socket,
            } && node_id == x && node@ == t.shape(x).label@ && socket@ == t.shape(x).inputs@[s].name@) {
            let (x, s) = choose|x: GraphNodeId, s: int|
                #![trigger t.ancestors(root).contains(x), t.input_of(x, s)]
                t.ancestors(root).contains(x) && t.expands(x, root) && missing_input(t, x, s) && (e matches NodeError::InputNotConnected {
                    node_id,
                    node,
                    socket,
                } && node_id == x && node@ == t.shape(x).label@ && socket@ == t.shape(x).inputs@[s].name@);
            assert(!missing_input(t, x, s));
        } else {
            let g = choose|g: GraphNodeId|
                #[trigger] t.ancestors(root).contains(g) && !t.expands(g, root) && cache.cached(
                    g,
                    EvalScope::Global(native_resolution_of(t, g)),
                ) is None && e == NodeError::NodeNotEvaluated(g);
            assert(cache.cached(g, EvalScope::Global(native_resolution_of(t, g))) is Some);
        }
    }
}

} // verus!
