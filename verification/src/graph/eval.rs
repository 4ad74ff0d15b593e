//! Whether a node can be evaluated at all: every required input socket it depends on is wired.

use vstd::prelude::*;

use crate::graph::topology::{count_true, lemma_count_false, lemma_count_true_bound, lemma_count_true_set, GraphNodeId, Topology};
use crate::graph::NodeGraph;
use crate::node::NodeError;
use crate::sequences::{lemma_drop_last_contains, lemma_push_contains};

verus! {

/// Input socket `s` of `a` is required.
pub open spec fn is_required<T>(t: Topology<T>, a: GraphNodeId, s: int) -> bool {
    0 <= s < t.in_len(a) && t.shape(a).inputs@[s].required
}

/// Input socket `s` of `a` is required but left unconnected.
pub open spec fn missing_input<T>(t: Topology<T>, a: GraphNodeId, s: int) -> bool {
    is_required(t, a, s) && t.input_of(a, s) is None
}

/// Some ancestor of `x` has a required input socket wired to an output of `y`: checking `x`
/// checks `y` in turn.
pub open spec fn requires_source<T>(t: Topology<T>, x: GraphNodeId, y: GraphNodeId) -> bool {
    exists|a: GraphNodeId, s: int|
        #![trigger t.ancestors(x).contains(a), t.input_of(a, s)]
        t.ancestors(x).contains(a) && is_required(t, a, s) && t.input_of(a, s) is Some && t.input_of(a, s).unwrap().0 == y
}

/// `ys` leads from `root` to the nodes whose check the check of `root` leads to.
pub open spec fn is_check_chain<T>(t: Topology<T>, root: GraphNodeId, ys: Seq<GraphNodeId>) -> bool {
    &&& ys.len() > 0
    &&& ys[0] == root
    &&& forall|k: int| 0 <= k < ys.len() - 1 ==> #[trigger] requires_source(t, ys[k], ys[k + 1])
}

/// The nodes checked along with `root`.
pub open spec fn check_roots<T>(t: Topology<T>, root: GraphNodeId) -> Set<GraphNodeId> {
    Set::new(|y: GraphNodeId| exists|ys: Seq<GraphNodeId>| #[trigger] is_check_chain(t, root, ys) && ys.last() == y)
}

/// Every node whose required inputs the check of `root` examines: the ancestors of `root`, and
/// in turn those of every node wired into one of their required sockets.
pub open spec fn checked_nodes<T>(t: Topology<T>, root: GraphNodeId) -> Set<GraphNodeId> {
    Set::new(|a: GraphNodeId| exists|y: GraphNodeId| #[trigger] check_roots(t, root).contains(y) && t.ancestors(y).contains(a))
}

/// Every required input of every ancestor of `y` is wired, to a node flagged in `seen`.
spec fn root_done<T>(t: Topology<T>, y: GraphNodeId, seen: Seq<bool>) -> bool {
    forall|a: GraphNodeId, s: int|
        #![trigger t.ancestors(y).contains(a), t.input_of(a, s)]
        t.ancestors(y).contains(a) && is_required(t, a, s) ==> t.input_of(a, s) is Some && t.input_of(a, s).unwrap().0.0
            < seen.len() && seen[t.input_of(a, s).unwrap().0.0 as int]
}

proof fn lemma_root_done_grow<T>(t: Topology<T>, y: GraphNodeId, seen: Seq<bool>, k: int)
    requires
        root_done(t, y, seen),
        0 <= k < seen.len(),
    ensures
        root_done(t, y, seen.update(k, true)),
{
    assert forall|a: GraphNodeId, s: int|
        #![trigger t.ancestors(y).contains(a), t.input_of(a, s)]
        t.ancestors(y).contains(a) && is_required(t, a, s) implies t.input_of(a, s) is Some && t.input_of(a, s).unwrap().0.0
            < seen.update(k, true).len() && seen.update(k, true)[t.input_of(a, s).unwrap().0.0 as int] by {
        assert(seen[t.input_of(a, s).unwrap().0.0 as int]);
    }
}

proof fn lemma_check_chain_extend<T>(t: Topology<T>, root: GraphNodeId, x: GraphNodeId, y: GraphNodeId)
    requires
        check_roots(t, root).contains(x),
        requires_source(t, x, y),
    ensures
        check_roots(t, root).contains(y),
{
    let ys = choose|ys: Seq<GraphNodeId>| #[trigger] is_check_chain(t, root, ys) && ys.last() == x;
    let ys2 = ys.push(y);
    assert forall|k: int| 0 <= k < ys2.len() - 1 implies #[trigger] requires_source(t, ys2[k], ys2[k + 1]) by {
        if k < ys.len() - 1 {
            assert(ys2[k] == ys[k] && ys2[k + 1] == ys[k + 1]);
            assert(requires_source(t, ys[k], ys[k + 1]));
        } else {
            assert(ys2[k] == x && ys2[k + 1] == y);
        }
    }
    assert(is_check_chain(t, root, ys2));
}

proof fn lemma_check_chain_closed<T>(t: Topology<T>, root: GraphNodeId, ys: Seq<GraphNodeId>, seen: Seq<bool>, k: int)
    requires
        is_check_chain(t, root, ys),
        0 <= k < ys.len(),
        root.0 < seen.len(),
        seen[root.0 as int],
        forall|i: int| 0 <= i < seen.len() && #[trigger] seen[i] ==> root_done(t, GraphNodeId(i as usize), seen),
    ensures
        ys[k].0 < seen.len() && seen[ys[k].0 as int],
    decreases k,
{
    if k > 0 {
        let j = k - 1;
        lemma_check_chain_closed(t, root, ys, seen, j);
        assert(requires_source(t, ys[j], ys[j + 1]));
        let (a, s) = choose|a: GraphNodeId, s: int|
            #![trigger t.ancestors(ys[j]).contains(a), t.input_of(a, s)]
            t.ancestors(ys[j]).contains(a) && is_required(t, a, s) && t.input_of(a, s) is Some && t.input_of(a, s).unwrap().0
                == ys[j + 1];
        assert(GraphNodeId(ys[j].0 as usize) == ys[j]);
        assert(root_done(t, ys[j], seen));
    }
}

/// Checks that every required input socket of `node_id`'s ancestors is wired, and, in turn, that
/// of every node wired into one of them; fails with `InputNotConnected` naming one that is not.
pub fn has_valid_connections<T>(topology: &Topology<T>, node_id: GraphNodeId) -> (r: Result<(), NodeError>)
    requires
        topology.wf(),
    ensures
        !topology.live(node_id) ==> r == Err::<(), NodeError>(NodeError::NodeNotFound(node_id)),
        topology.live(node_id) ==> (r is Ok <==> forall|a: GraphNodeId, s: int|
            #![trigger checked_nodes(*topology, node_id).contains(a), topology.input_of(a, s)]
            checked_nodes(*topology, node_id).contains(a) ==> !missing_input(*topology, a, s)),
        topology.live(node_id) && r is Err ==> exists|a: GraphNodeId, s: int|
            #![trigger checked_nodes(*topology, node_id).contains(a), topology.input_of(a, s)]
            checked_nodes(*topology, node_id).contains(a) && missing_input(*topology, a, s) && (r matches Err(
                NodeError::InputNotConnected { node_id: id, node: label, socket },
            ) && id == a && label@ == topology.shape(a).label@ && socket@ == topology.shape(a).inputs@[s].name@),
{
    if !topology.contains(node_id) {
        return Err(NodeError::NodeNotFound(node_id));
    }
    let ghost t = *topology;
    let n = topology.slot_len();
    let mut seen: Vec<bool> = Vec::new();
    let mut k: usize = 0;
    while k < n
        invariant
            k <= n,
            seen@.len() == k,
            forall|j: int| 0 <= j < k ==> !#[trigger] seen@[j],
        decreases n - k,
    {
        seen.push(false);
        k = k + 1;
    }
    proof {
        lemma_count_false(n as nat);
        assert(seen@ =~= Seq::new(n as nat, |j: int| false));
        lemma_count_true_set(seen@, node_id.0 as int);
        assert(is_check_chain(t, node_id, seq![node_id]));
    }
    seen.set(node_id.0, true);
    let mut roots: Vec<GraphNodeId> = Vec::new();
    roots.push(node_id);
    proof {
        assert forall|x: GraphNodeId| #[trigger] roots@.contains(x) implies x.0 < n && seen@[x.0 as int] by {
            assert(roots@[0] == node_id);
        }
        assert forall|i: int| 0 <= i < n && #[trigger] seen@[i] implies check_roots(t, node_id).contains(GraphNodeId(i as usize)) by {
            assert(i == node_id.0);
            assert(GraphNodeId(i as usize) == node_id);
        }
    }
    while roots.len() > 0
        invariant
            *topology == t,
            t.wf(),
            t.live(node_id),
            n == t.slot_count(),
            seen@.len() == n,
            seen@[node_id.0 as int],
            count_true(seen@) <= n,
            roots@.no_duplicates(),
            forall|x: GraphNodeId| #[trigger] roots@.contains(x) ==> x.0 < n && seen@[x.0 as int],
            forall|i: int| 0 <= i < n && #[trigger] seen@[i] ==> check_roots(t, node_id).contains(GraphNodeId(i as usize)),
            forall|i: int| 0 <= i < n && #[trigger] seen@[i] ==> t.live(GraphNodeId(i as usize)),
            forall|i: int|
                0 <= i < n && #[trigger] seen@[i] && !roots@.contains(GraphNodeId(i as usize)) ==> root_done(
                    t,
                    GraphNodeId(i as usize),
                    seen@,
                ),
        decreases 2 * (n - count_true(seen@)) + roots@.len(),
    {
        let ghost measure0 = 2 * (n - count_true(seen@)) + roots@.len();
        let ghost r0 = roots@;
        let root = roots.pop().unwrap();
        proof {
            assert(r0.contains(root));
            lemma_drop_last_contains(r0);
            assert(GraphNodeId(root.0 as usize) == root);
        }
        let ancestors = match topology.collect_ancestors(root) {
            Ok(a) => a,
            Err(e) => return Err(e),
        };
        let mut j: usize = 0;
        while j < ancestors.len()
            invariant
                *topology == t,
                t.wf(),
                t.live(node_id),
                t.live(root),
                root.0 < n,
                seen@[root.0 as int],
                !roots@.contains(root),
                check_roots(t, node_id).contains(root),
                ancestors@.to_set() == t.ancestors(root),
                forall|q: int| 0 <= q < ancestors@.len() ==> t.live(#[trigger] ancestors@[q]),
                j <= ancestors@.len(),
                n == t.slot_count(),
                seen@.len() == n,
                seen@[node_id.0 as int],
                count_true(seen@) <= n,
                2 * (n - count_true(seen@)) + roots@.len() < measure0,
                roots@.no_duplicates(),
                forall|x: GraphNodeId| #[trigger] roots@.contains(x) ==> x.0 < n && seen@[x.0 as int],
                forall|i: int| 0 <= i < n && #[trigger] seen@[i] ==> check_roots(t, node_id).contains(GraphNodeId(i as usize)),
                forall|i: int| 0 <= i < n && #[trigger] seen@[i] ==> t.live(GraphNodeId(i as usize)),
                forall|i: int|
                    0 <= i < n && #[trigger] seen@[i] && !roots@.contains(GraphNodeId(i as usize)) && GraphNodeId(i as usize)
                        != root ==> root_done(t, GraphNodeId(i as usize), seen@),
                forall|q: int, s: int|
                    0 <= q < j && #[trigger] is_required(t, ancestors@[q], s) ==> t.input_of(ancestors@[q], s) is Some
                        && t.input_of(ancestors@[q], s).unwrap().0.0 < n && seen@[t.input_of(ancestors@[q], s).unwrap().0.0 as int],
            decreases ancestors@.len() - j,
        {
            let a = ancestors[j];
            proof {
                assert(t.live(ancestors@[j as int]));
                assert(ancestors@.to_set().contains(a));
            }
            let shape = match topology.shape_of(a) {
                Ok(sh) => sh,
                Err(e) => return Err(e),
            };
            let ins = match topology.inputs(a) {
                Ok(i) => i,
                Err(e) => return Err(e),
            };
            proof {
                assert(t.inputs_at(a.0 as int).len() == t.shape_at(a.0 as int).unwrap().inputs@.len());
            }
            let mut s: usize = 0;
            while s < ins.len()
                invariant
                    *topology == t,
                    t.wf(),
                    t.live(node_id),
                    t.live(root),
                    t.live(a),
                    a == ancestors@[j as int],
                    t.ancestors(root).contains(a),
                    *shape == t.shape(a),
                    ins@.len() == t.in_len(a),
                    forall|q: int| 0 <= q < ins@.len() ==> ins@[q] == #[trigger] t.input_of(a, q),
                    root.0 < n,
                    seen@[root.0 as int],
                    !roots@.contains(root),
                    check_roots(t, node_id).contains(root),
                    ancestors@.to_set() == t.ancestors(root),
                    forall|q: int| 0 <= q < ancestors@.len() ==> t.live(#[trigger] ancestors@[q]),
                    j < ancestors@.len(),
                    s <= ins@.len(),
                    n == t.slot_count(),
                    seen@.len() == n,
                    seen@[node_id.0 as int],
                    count_true(seen@) <= n,
                    2 * (n - count_true(seen@)) + roots@.len() < measure0,
                    roots@.no_duplicates(),
                    forall|x: GraphNodeId| #[trigger] roots@.contains(x) ==> x.0 < n && seen@[x.0 as int],
                    forall|i: int| 0 <= i < n && #[trigger] seen@[i] ==> check_roots(t, node_id).contains(GraphNodeId(i as usize)),
                    forall|i: int| 0 <= i < n && #[trigger] seen@[i] ==> t.live(GraphNodeId(i as usize)),
                    forall|i: int|
                        0 <= i < n && #[trigger] seen@[i] && !roots@.contains(GraphNodeId(i as usize)) && GraphNodeId(i as usize)
                            != root ==> root_done(t, GraphNodeId(i as usize), seen@),
                    forall|q: int, p: int|
                        0 <= q < j && #[trigger] is_required(t, ancestors@[q], p) ==> t.input_of(ancestors@[q], p) is Some
                            && t.input_of(ancestors@[q], p).unwrap().0.0 < n && seen@[t.input_of(ancestors@[q], p).unwrap().0.0 as int],
                    forall|p: int|
                        0 <= p < s && #[trigger] is_required(t, a, p) ==> t.input_of(a, p) is Some && t.input_of(a, p).unwrap().0.0
                            < n && seen@[t.input_of(a, p).unwrap().0.0 as int],
                decreases ins@.len() - s,
            {
                let socket = &shape.inputs[s];
                if socket.required {
                    proof {
                        assert(ins@[s as int] == t.input_of(a, s as int));
                    }
                    match ins[s] {
                        None => {
                            let e = NodeError::InputNotConnected {
                                node_id: a,
                                node: shape.label.clone(),
                                socket: socket.name.to_owned(),
                            };
                            proof {
                                assert(missing_input(t, a, s as int));
                                assert(check_roots(t, node_id).contains(root) && t.ancestors(root).contains(a));
                                assert(checked_nodes(t, node_id).contains(a));
                            }
                            return Err(e);
                        },
                        Some((f, _)) => {
                            proof {
                                assert(t.input_of(a, s as int) is Some);
                                assert(t.feeds(f, a));
                                crate::evaluation::plan::lemma_feeder(t, f, a);
                            }
                            if !seen[f.0] {
                                proof {
                                    assert(requires_source(t, root, f));
                                    lemma_check_chain_extend(t, node_id, root, f);
                                    lemma_count_true_set(seen@, f.0 as int);
                                    assert(!roots@.contains(f));
                                    lemma_push_contains(roots@, f);
                                    assert forall|i: int|
                                        0 <= i < n && #[trigger] seen@[i] && !roots@.contains(GraphNodeId(i as usize))
                                            && GraphNodeId(i as usize) != root implies root_done(
                                            t,
                                            GraphNodeId(i as usize),
                                            seen@.update(f.0 as int, true),
                                        ) by {
                                        lemma_root_done_grow(t, GraphNodeId(i as usize), seen@, f.0 as int);
                                    }
                                }
                                let ghost sn0 = seen@;
                                seen.set(f.0, true);
                                roots.push(f);
                                proof {
                                    lemma_count_true_bound(seen@);
                                    assert forall|i: int|
                                        0 <= i < n && #[trigger] seen@[i] && !roots@.contains(GraphNodeId(i as usize))
                                            && GraphNodeId(i as usize) != root implies root_done(t, GraphNodeId(i as usize), seen@) by {
                                        if i == f.0 {
                                            assert(GraphNodeId(i as usize) == f);
                                        } else {
                                            assert(sn0[i]);
                                        }
                                    }
                                    assert forall|i: int| 0 <= i < n && #[trigger] seen@[i] implies check_roots(
                                        t,
                                        node_id,
                                    ).contains(GraphNodeId(i as usize)) by {
                                        if i == f.0 {
                                            assert(GraphNodeId(i as usize) == f);
                                        } else {
                                            assert(sn0[i]);
                                        }
                                    }
                                    assert forall|i: int| 0 <= i < n && #[trigger] seen@[i] implies t.live(GraphNodeId(i as usize)) by {
                                        if i == f.0 {
                                            assert(GraphNodeId(i as usize) == f);
                                        } else {
                                            assert(sn0[i]);
                                        }
                                    }
                                }
                            }
                        },
                    }
                }
                s = s + 1;
            }
            proof {
                assert forall|p: int| #[trigger] is_required(t, a, p) implies t.input_of(a, p) is Some && t.input_of(a, p).unwrap().0.0
                    < n && seen@[t.input_of(a, p).unwrap().0.0 as int] by {
                    assert(0 <= p < s);
                }
            }
            j = j + 1;
        }
        proof {
            assert(root_done(t, root, seen@)) by {
                assert forall|x: GraphNodeId, p: int|
                    #![trigger t.ancestors(root).contains(x), t.input_of(x, p)]
                    t.ancestors(root).contains(x) && is_required(t, x, p) implies t.input_of(x, p) is Some && t.input_of(x, p).unwrap().0.0
                        < seen@.len() && seen@[t.input_of(x, p).unwrap().0.0 as int] by {
                    assert(ancestors@.to_set().contains(x));
                    let q = choose|q: int| 0 <= q < ancestors@.len() && ancestors@[q] == x;
                    assert(is_required(t, ancestors@[q], p));
                }
            }
        }
    }
    proof {
        assert(roots@ == Seq::<GraphNodeId>::empty());
        assert forall|i: int| 0 <= i < n && #[trigger] seen@[i] implies root_done(t, GraphNodeId(i as usize), seen@) by {
            assert(!roots@.contains(GraphNodeId(i as usize)));
        }
        assert forall|a: GraphNodeId, s: int|
            #![trigger checked_nodes(t, node_id).contains(a), t.input_of(a, s)]
            checked_nodes(t, node_id).contains(a) implies !missing_input(t, a, s) by {
            let y = choose|y: GraphNodeId| #[trigger] check_roots(t, node_id).contains(y) && t.ancestors(y).contains(a);
            let ys = choose|ys: Seq<GraphNodeId>| #[trigger] is_check_chain(t, node_id, ys) && ys.last() == y;
            lemma_check_chain_closed(t, node_id, ys, seen@, ys.len() - 1);
            assert(GraphNodeId(y.0 as usize) == y);
            assert(root_done(t, y, seen@));
            if is_required(t, a, s) {
                assert(t.input_of(a, s) is Some);
            }
        }
    }
    Ok(())
}

impl<T, R> NodeGraph<T, R> {
    /// Checks that every required input of `node_id`'s ancestors is wired (see
    /// `has_valid_connections`).
    pub fn has_valid_connections(&self, node_id: GraphNodeId) -> (r: Result<(), NodeError>)
        requires
            self.wf(),
        ensures
            !self.spec_topology().live(node_id) ==> r == Err::<(), NodeError>(NodeError::NodeNotFound(node_id)),
            self.spec_topology().live(node_id) ==> (r is Ok <==> forall|a: GraphNodeId, s: int|
                #![trigger checked_nodes(self.spec_topology(), node_id).contains(a), self.spec_topology().input_of(a, s)]
                checked_nodes(self.spec_topology(), node_id).contains(a) ==> !missing_input(self.spec_topology(), a, s)),
            self.spec_topology().live(node_id) && r is Err ==> exists|a: GraphNodeId, s: int|
                #![trigger checked_nodes(self.spec_topology(), node_id).contains(a), self.spec_topology().input_of(a, s)]
                checked_nodes(self.spec_topology(), node_id).contains(a) && missing_input(self.spec_topology(), a, s) && (r matches Err(
                    NodeError::InputNotConnected { node_id: id, node: label, socket },
                ) && id == a && label@ == self.spec_topology().shape(a).label@ && socket@ == self.spec_topology().shape(
                    a,
                ).inputs@[s].name@),
    {
        has_valid_connections(self.topology(), node_id)
    }
}

} // verus!
