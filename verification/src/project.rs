//! How a saved project refers to the nodes of a graph: every node gets a file id, its rank among
//! the graph's nodes in ascending id order, and every connection is stored between file ids. On
//! load, the connections are rebuilt between the nodes created for those file ids.

use vstd::prelude::*;

use crate::assoc::AssocMap;
use crate::graph::{EdgeEntry, GraphNodeId, NodeGraph, Topology};
use crate::node::NodeError;

verus! {

/// A connection as a project file stores it, between file ids.
#[derive(Debug, Clone, Copy, PartialEq, Eq, Structural)]
pub struct ProjectEdge {
    pub from_node: usize,
    pub from_socket: usize,
    pub to_node: usize,
    pub to_socket: usize,
}

/// What stops the connections of a loaded project from being rebuilt.
#[derive(Debug, Clone)]
pub enum ProjectError {
    /// An edge refers to a file id that no node of the file has.
    UnknownNode,
    /// The graph refused a connection.
    Connect(NodeError),
}

/// Number of live nodes among the slots below `k`.
pub open spec fn live_below<T>(t: Topology<T>, k: nat) -> nat
    decreases k,
{
    if k == 0 {
        0
    } else {
        live_below(t, (k - 1) as nat) + if t.live(GraphNodeId((k - 1) as usize)) {
            1nat
        } else {
            0nat
        }
    }
}

/// The file id of node `g`: how many nodes have a smaller id.
pub open spec fn file_id<T>(t: Topology<T>, g: GraphNodeId) -> nat {
    live_below(t, g.0 as nat)
}

/// The file edge that stores the connection into input socket `s` of `g`.
pub open spec fn stored_edge<T>(t: Topology<T>, g: GraphNodeId, s: int) -> ProjectEdge {
    ProjectEdge {
        from_node: file_id(t, t.input_of(g, s).unwrap().0) as usize,
        from_socket: t.input_of(g, s).unwrap().1,
        to_node: file_id(t, g) as usize,
        to_socket: s as usize,
    }
}

/// Input socket `s` of the live node `g` is wired.
pub open spec fn wired_socket<T>(t: Topology<T>, g: GraphNodeId, s: int) -> bool {
    t.live(g) && 0 <= s < t.in_len(g) && t.input_of(g, s) is Some
}

/// `e` stores the connection into some wired input socket.
pub open spec fn is_stored<T>(t: Topology<T>, e: ProjectEdge) -> bool {
    exists|g: GraphNodeId, s: int| #[trigger] wired_socket(t, g, s) && e == stored_edge(t, g, s)
}

pub proof fn lemma_live_below_mono<T>(t: Topology<T>, a: nat, b: nat)
    requires
        a <= b,
    ensures
        live_below(t, a) <= live_below(t, b),
        a < b && t.live(GraphNodeId(a as usize)) ==> live_below(t, a) < live_below(t, b),
    decreases b,
{
    if a < b {
        lemma_live_below_mono(t, a, (b - 1) as nat);
    }
}

/// Distinct nodes get distinct file ids, each below the number of nodes.
pub proof fn lemma_file_ids_distinct<T>(t: Topology<T>, g: GraphNodeId, h: GraphNodeId)
    requires
        t.live(g),
        t.live(h),
        g != h,
    ensures
        file_id(t, g) != file_id(t, h),
        file_id(t, g) < live_below(t, t.slot_count()),
{
    if g.0 < h.0 {
        lemma_live_below_mono(t, g.0 as nat, h.0 as nat);
    } else {
        assert(h.0 != g.0);
        lemma_live_below_mono(t, h.0 as nat, g.0 as nat);
    }
    lemma_live_below_mono(t, g.0 as nat, t.slot_count());
}

/// The file id of every slot below `topology`'s slot count, for the live ones.
fn file_ids<T>(topology: &Topology<T>) -> (ids: Vec<usize>)
    ensures
        ids@.len() == topology.slot_count(),
        forall|i: int| 0 <= i < ids@.len() ==> #[trigger] ids@[i] == live_below(*topology, i as nat),
{
    let n = topology.slot_len();
    let mut ids: Vec<usize> = Vec::new();
    let mut next: usize = 0;
    let mut i: usize = 0;
    while i < n
        invariant
            n == topology.slot_count(),
            i <= n,
            ids@.len() == i,
            next == live_below(*topology, i as nat),
            next <= i,
            forall|j: int| 0 <= j < i ==> #[trigger] ids@[j] == live_below(*topology, j as nat),
        decreases n - i,
    {
        ids.push(next);
        if topology.contains(GraphNodeId(i)) {
            next = next + 1;
        }
        i = i + 1;
    }
    ids
}

/// `a` comes before `b` when edges are listed by target node, then by target socket.
pub open spec fn edge_precedes(a: ProjectEdge, b: ProjectEdge) -> bool {
    a.to_node < b.to_node || (a.to_node == b.to_node && a.to_socket < b.to_socket)
}

/// Every connection of the graph, between file ids: for each node in ascending id order, each
/// wired input socket in order.
pub fn project_edges<T>(topology: &Topology<T>) -> (r: Vec<ProjectEdge>)
    requires
        topology.wf(),
    ensures
        forall|k: int| 0 <= k < r@.len() ==> is_stored(*topology, #[trigger] r@[k]),
        forall|g: GraphNodeId, s: int| #[trigger] wired_socket(*topology, g, s) ==> r@.contains(stored_edge(*topology, g, s)),
        forall|k: int, l: int| 0 <= k < l < r@.len() ==> edge_precedes(#[trigger] r@[k], #[trigger] r@[l]),
{
    let ids = file_ids(topology);
    let n = topology.slot_len();
    let mut edges: Vec<ProjectEdge> = Vec::new();
    let mut i: usize = 0;
    while i < n
        invariant
            topology.wf(),
            n == topology.slot_count(),
            ids@.len() == n,
            forall|j: int| 0 <= j < ids@.len() ==> #[trigger] ids@[j] == live_below(*topology, j as nat),
            i <= n,
            forall|k: int| 0 <= k < edges@.len() ==> is_stored(*topology, #[trigger] edges@[k]),
            forall|g: GraphNodeId, s: int|
                #[trigger] wired_socket(*topology, g, s) && g.0 < i ==> edges@.contains(stored_edge(*topology, g, s)),
            forall|k: int| 0 <= k < edges@.len() ==> (#[trigger] edges@[k]).to_node < live_below(*topology, i as nat),
            forall|k: int, l: int| 0 <= k < l < edges@.len() ==> edge_precedes(#[trigger] edges@[k], #[trigger] edges@[l]),
        decreases n - i,
    {
        let g = GraphNodeId(i);
        if let Ok(inputs) = topology.inputs(g) {
            proof {
                assert(topology.inputs_at(g.0 as int).len() == topology.shape_at(g.0 as int).unwrap().inputs@.len());
            }
            let mut s: usize = 0;
            while s < inputs.len()
                invariant
                    topology.wf(),
                    topology.live(g),
                    g.0 == i,
                    i < n,
                    n == topology.slot_count(),
                    ids@.len() == n,
                    forall|j: int| 0 <= j < ids@.len() ==> #[trigger] ids@[j] == live_below(*topology, j as nat),
                    inputs@.len() == topology.in_len(g),
                    forall|q: int| 0 <= q < inputs@.len() ==> inputs@[q] == #[trigger] topology.input_of(g, q),
                    s <= inputs@.len(),
                    forall|k: int| 0 <= k < edges@.len() ==> is_stored(*topology, #[trigger] edges@[k]),
                    forall|h: GraphNodeId, p: int|
                        #[trigger] wired_socket(*topology, h, p) && h.0 < i ==> edges@.contains(stored_edge(*topology, h, p)),
                    forall|p: int| #[trigger] wired_socket(*topology, g, p) && p < s ==> edges@.contains(stored_edge(*topology, g, p)),
                    forall|k: int|
                        0 <= k < edges@.len() ==> (#[trigger] edges@[k]).to_node < live_below(*topology, i as nat) || (
                        edges@[k].to_node == live_below(*topology, i as nat) && edges@[k].to_socket < s),
                    forall|k: int, l: int| 0 <= k < l < edges@.len() ==> edge_precedes(#[trigger] edges@[k], #[trigger] edges@[l]),
                decreases inputs@.len() - s,
            {
                if let Some((from_node, from_socket)) = inputs[s] {
                    proof {
                        assert(topology.input_of(g, s as int) is Some);
                        assert(topology.feeds(from_node, g));
                        crate::evaluation::plan::lemma_feeder(*topology, from_node, g);
                        assert(topology.slot_count() == ids@.len());
                    }
                    let e = ProjectEdge { from_node: ids[from_node.0], from_socket, to_node: ids[i], to_socket: s };
                    let ghost e0 = edges@;
                    proof {
                        assert(wired_socket(*topology, g, s as int));
                        assert(e == stored_edge(*topology, g, s as int));
                    }
                    edges.push(e);
                    proof {
                        assert forall|k: int| 0 <= k < edges@.len() implies is_stored(*topology, #[trigger] edges@[k]) by {
                            if k < e0.len() {
                                assert(edges@[k] == e0[k]);
                                assert(is_stored(*topology, e0[k]));
                            } else {
                                assert(wired_socket(*topology, g, s as int) && edges@[k] == stored_edge(*topology, g, s as int));
                            }
                        }
                        assert forall|h: GraphNodeId, p: int|
                            #[trigger] wired_socket(*topology, h, p) && h.0 < i implies edges@.contains(stored_edge(*topology, h, p)) by {
                            let k = choose|k: int| 0 <= k < e0.len() && e0[k] == stored_edge(*topology, h, p);
                            assert(edges@[k] == e0[k]);
                        }
                        assert forall|p: int|
                            #[trigger] wired_socket(*topology, g, p) && p < s + 1 implies edges@.contains(stored_edge(*topology, g, p)) by {
                            if p < s {
                                let k = choose|k: int| 0 <= k < e0.len() && e0[k] == stored_edge(*topology, g, p);
                                assert(edges@[k] == e0[k]);
                            } else {
                                assert(edges@[e0.len() as int] == e);
                            }
                        }
                        assert(e.to_node == live_below(*topology, i as nat) && e.to_socket == s);
                        assert forall|k: int, l: int| 0 <= k < l < edges@.len() implies edge_precedes(
                            #[trigger] edges@[k],
                            #[trigger] edges@[l],
                        ) by {
                            assert(edges@[k] == e0[k]);
                            if l < e0.len() {
                                assert(edges@[l] == e0[l]);
                            } else {
                                assert(edges@[l] == e);
                            }
                        }
                    }
                }
                s = s + 1;
            }
            proof {
                assert forall|h: GraphNodeId, p: int|
                    #[trigger] wired_socket(*topology, h, p) && h.0 < i + 1 implies edges@.contains(stored_edge(*topology, h, p)) by {
                    if h.0 == i {
                        assert(h == g);
                    }
                }
                assert(live_below(*topology, (i + 1) as nat) == live_below(*topology, i as nat) + 1);
            }
        }
        i = i + 1;
    }
    edges
}

/// Every slot below `k` counts at most once.
proof fn lemma_live_below_bound<T>(t: Topology<T>, k: nat)
    ensures
        live_below(t, k) <= k,
    decreases k,
{
    if k > 0 {
        lemma_live_below_bound(t, (k - 1) as nat);
    }
}

/// Connection `c` is a wire of `t`: output `c.1` of node `c.0` feeds input socket `c.3` of `c.2`.
pub open spec fn wires<T>(t: Topology<T>, c: (GraphNodeId, usize, GraphNodeId, usize)) -> bool {
    wired_socket(t, c.2, c.3 as int) && t.input_of(c.2, c.3 as int) == Some((c.0, c.1))
}

/// Read back through the file ids of the graph it was listed from, a saved edge list is exactly
/// that graph's wiring: each edge names a wired input socket and the output that feeds it, and
/// every wired input socket is named by one of the edges.
pub proof fn lemma_saved_edges_read_back<T>(t: Topology<T>, edges: Seq<ProjectEdge>, id_map: Map<usize, GraphNodeId>)
    requires
        t.wf(),
        forall|k: int| 0 <= k < edges.len() ==> is_stored(t, #[trigger] edges[k]),
        forall|g: GraphNodeId, s: int| #[trigger] wired_socket(t, g, s) ==> edges.contains(stored_edge(t, g, s)),
        forall|g: GraphNodeId|
            #[trigger] t.live(g) ==> id_map.contains_key(file_id(t, g) as usize) && id_map[file_id(t, g) as usize] == g,
    ensures
        forall|k: int| 0 <= k < edges.len() ==> wires(t, #[trigger] resolved_edge(id_map, edges[k])),
        forall|g: GraphNodeId, s: int| #[trigger]
            wired_socket(t, g, s) ==> exists|k: int|
                0 <= k < edges.len() && #[trigger] resolved_edge(id_map, edges[k]) == (
                    t.input_of(g, s).unwrap().0,
                    t.input_of(g, s).unwrap().1,
                    g,
                    s as usize,
                ),
{
    assert forall|g: GraphNodeId, s: int| #[trigger] wired_socket(t, g, s) implies resolved_edge(
        id_map,
        stored_edge(t, g, s),
    ) == (t.input_of(g, s).unwrap().0, t.input_of(g, s).unwrap().1, g, s as usize) by {
        let src = t.input_of(g, s).unwrap().0;
        assert(t.feeds(src, g));
        crate::evaluation::plan::lemma_feeder(t, src, g);
        lemma_live_below_bound(t, src.0 as nat);
        lemma_live_below_bound(t, g.0 as nat);
        assert(t.live(src) && t.live(g));
    }
    assert forall|k: int| 0 <= k < edges.len() implies wires(t, #[trigger] resolved_edge(id_map, edges[k])) by {
        let (g, s) = choose|g: GraphNodeId, s: int| #[trigger] wired_socket(t, g, s) && edges[k] == stored_edge(t, g, s);
        assert(wired_socket(t, g, s));
    }
    assert forall|g: GraphNodeId, s: int| #[trigger] wired_socket(t, g, s) implies exists|k: int|
        0 <= k < edges.len() && #[trigger] resolved_edge(id_map, edges[k]) == (
            t.input_of(g, s).unwrap().0,
            t.input_of(g, s).unwrap().1,
            g,
            s as usize,
        ) by {
        let k = choose|k: int| 0 <= k < edges.len() && edges[k] == stored_edge(t, g, s);
        assert(resolved_edge(id_map, edges[k]) == resolved_edge(id_map, stored_edge(t, g, s)));
    }
}

/// `ts` steps from `ts[0]` through connecting each of `conns`, one after the other, all accepted,
/// every topology on the way well formed.
pub open spec fn connects_in_order<T>(ts: Seq<Topology<T>>, conns: Seq<(GraphNodeId, usize, GraphNodeId, usize)>) -> bool {
    &&& ts.len() == conns.len() + 1
    &&& forall|k: int| 0 <= k < ts.len() ==> (#[trigger] ts[k]).wf()
    &&& forall|k: int|
        0 <= k < conns.len() ==> #[trigger] ts[k].connects(
            &ts[k + 1],
            conns[k].0,
            conns[k].1,
            conns[k].2,
            conns[k].3,
            Ok::<(), NodeError>(()),
        )
}

/// The edge a connection makes.
pub open spec fn edge_of(c: (GraphNodeId, usize, GraphNodeId, usize)) -> EdgeEntry {
    EdgeEntry { from_node: c.0, from_socket: c.1, to_node: c.2, to_socket: c.3 }
}

/// No two of `conns` go into the same input socket.
pub open spec fn distinct_targets(conns: Seq<(GraphNodeId, usize, GraphNodeId, usize)>) -> bool {
    forall|a: int, b: int|
        0 <= a < b < conns.len() ==> #[trigger] conns[a].2 != #[trigger] conns[b].2 || conns[a].3 != conns[b].3
}

/// After the first `k` of the replayed connections, the edges are exactly those `k`.
proof fn lemma_replay_prefix<T>(ts: Seq<Topology<T>>, conns: Seq<(GraphNodeId, usize, GraphNodeId, usize)>, k: int)
    requires
        connects_in_order(ts, conns),
        ts[0].edge_list().len() == 0,
        distinct_targets(conns),
        0 <= k <= conns.len(),
    ensures
        ts[k].edge_list() == conns.take(k).map_values(|c: (GraphNodeId, usize, GraphNodeId, usize)| edge_of(c)),
    decreases k,
{
    if k == 0 {
        assert(conns.take(0).map_values(|c: (GraphNodeId, usize, GraphNodeId, usize)| edge_of(c)) =~= Seq::<EdgeEntry>::empty());
    } else {
        let j = k - 1;
        lemma_replay_prefix(ts, conns, j);
        let t = ts[j];
        let c = conns[j];
        assert(t.wf());
        assert(t.connects(&ts[j + 1], c.0, c.1, c.2, c.3, Ok::<(), NodeError>(())));
        if t.input_of(c.2, c.3 as int) is Some {
            assert(t.has_edge_into(c.2, c.3 as int));
            let i = choose|i: int|
                0 <= i < t.edge_list().len() && t.edge_list()[i].to_node == c.2 && t.edge_list()[i].to_socket == c.3;
            assert(t.edge_list()[i] == edge_of(conns[i]));
            assert(conns[i].2 == c.2 && conns[i].3 == c.3);
            assert(false);
        }
        assert(conns.take(k).map_values(|c: (GraphNodeId, usize, GraphNodeId, usize)| edge_of(c)) =~= conns.take(
            j,
        ).map_values(|c: (GraphNodeId, usize, GraphNodeId, usize)| edge_of(c)).push(edge_of(c)));
    }
}

/// Connecting, one after the other and all accepted, connections into distinct input sockets of
/// a topology without edges leaves exactly those connections as its edges, in that order.
pub proof fn lemma_replayed_connections<T>(ts: Seq<Topology<T>>, conns: Seq<(GraphNodeId, usize, GraphNodeId, usize)>)
    requires
        connects_in_order(ts, conns),
        ts[0].edge_list().len() == 0,
        distinct_targets(conns),
    ensures
        ts.last().edge_list() == conns.map_values(|c: (GraphNodeId, usize, GraphNodeId, usize)| edge_of(c)),
{
    lemma_replay_prefix(ts, conns, conns.len() as int);
    assert(conns.take(conns.len() as int) == conns);
}

/// The connection `e` stands for, once both its file ids are known in `id_map`.
pub open spec fn resolved_edge(id_map: Map<usize, GraphNodeId>, e: ProjectEdge) -> (GraphNodeId, usize, GraphNodeId, usize) {
    (id_map[e.from_node], e.from_socket, id_map[e.to_node], e.to_socket)
}

/// The connections the first `j` of `edges` stand for.
pub open spec fn resolved_prefix(id_map: Map<usize, GraphNodeId>, edges: Seq<ProjectEdge>, j: int) -> Seq<(GraphNodeId, usize, GraphNodeId, usize)> {
    Seq::new(j as nat, |k: int| resolved_edge(id_map, edges[k]))
}

/// Rebuilds the connections `edges` of a loaded project, between the nodes `id_map` gives for
/// their file ids, in order; stops at the first edge naming an unknown file id or refused by the
/// graph. Returns the connections made.
pub fn connect_project_edges<T, R>(graph: &mut NodeGraph<T, R>, id_map: &AssocMap<usize, GraphNodeId>, edges: &Vec<ProjectEdge>) -> (r: Result<
    Vec<(GraphNodeId, usize, GraphNodeId, usize)>,
    ProjectError,
>)
    requires
        old(graph).wf(),
        id_map.wf(),
    ensures
        final(graph).wf(),
        final(graph).spec_grid() == old(graph).spec_grid(),
        r matches Ok(v) ==> {
            &&& v@.len() == edges@.len()
            &&& forall|k: int|
                0 <= k < edges@.len() ==> id_map.map().contains_key(#[trigger] edges@[k].from_node) && id_map.map().contains_key(
                    edges@[k].to_node,
                ) && v@[k] == resolved_edge(id_map.map(), edges@[k])
            &&& exists|ts: Seq<Topology<T>>|
                connects_in_order(ts, v@) && ts[0] == old(graph).spec_topology() && ts.last() == final(graph).spec_topology()
        },
        r is Err ==> exists|j: int, ts: Seq<Topology<T>>|
            #![trigger edges@[j], connects_in_order(ts, resolved_prefix(id_map.map(), edges@, j))]
            0 <= j < edges@.len() && (forall|k: int|
                0 <= k < j ==> id_map.map().contains_key(#[trigger] edges@[k].from_node) && id_map.map().contains_key(
                    edges@[k].to_node,
                )) && connects_in_order(ts, resolved_prefix(id_map.map(), edges@, j)) && ts[0]
                == old(graph).spec_topology() && ts.last() == final(graph).spec_topology() && match r {
                Err(ProjectError::UnknownNode) => !id_map.map().contains_key(edges@[j].from_node) || !id_map.map().contains_key(
                    edges@[j].to_node,
                ),
                Err(ProjectError::Connect(e)) => id_map.map().contains_key(edges@[j].from_node) && id_map.map().contains_key(
                    edges@[j].to_node,
                ) && ts.last().connects(
                    &ts.last(),
                    resolved_edge(id_map.map(), edges@[j]).0,
                    resolved_edge(id_map.map(), edges@[j]).1,
                    resolved_edge(id_map.map(), edges@[j]).2,
                    resolved_edge(id_map.map(), edges@[j]).3,
                    Err::<(), NodeError>(e),
                ),
                Ok(_) => false,
            },
{
    let mut made: Vec<(GraphNodeId, usize, GraphNodeId, usize)> = Vec::new();
    let ghost mut ts: Seq<Topology<T>> = seq![graph.spec_topology()];
    let mut k: usize = 0;
    while k < edges.len()
        invariant
            graph.wf(),
            graph.spec_grid() == old(graph).spec_grid(),
            id_map.wf(),
            k <= edges@.len(),
            made@.len() == k,
            made@ == resolved_prefix(id_map.map(), edges@, k as int),
            forall|q: int|
                0 <= q < k ==> id_map.map().contains_key(#[trigger] edges@[q].from_node) && id_map.map().contains_key(
                    edges@[q].to_node,
                ),
            connects_in_order(ts, made@),
            ts[0] == old(graph).spec_topology(),
            ts.last() == graph.spec_topology(),
        decreases edges@.len() - k,
    {
        let e = edges[k];
        proof {
            assert(connects_in_order(ts, resolved_prefix(id_map.map(), edges@, k as int)));
            assert(edges@[k as int] == e);
        }
        let from_node = match id_map.get(&e.from_node) {
            Some(id) => *id,
            None => return Err(ProjectError::UnknownNode),
        };
        let to_node = match id_map.get(&e.to_node) {
            Some(id) => *id,
            None => return Err(ProjectError::UnknownNode),
        };
        let ghost before = graph.spec_topology();
        proof {
            assert(id_map.map().contains_key(e.from_node) && id_map.map().contains_key(e.to_node));
        }
        match graph.connect(from_node, e.from_socket, to_node, e.to_socket) {
            Ok(()) => {},
            Err(err) => return Err(ProjectError::Connect(err)),
        }
        let ghost m0 = made@;
        made.push((from_node, e.from_socket, to_node, e.to_socket));
        proof {
            let ts2 = ts.push(graph.spec_topology());
            assert(made@ =~= resolved_prefix(id_map.map(), edges@, k + 1));
            assert forall|q: int| 0 <= q < made@.len() implies #[trigger] ts2[q].connects(
                &ts2[q + 1],
                made@[q].0,
                made@[q].1,
                made@[q].2,
                made@[q].3,
                Ok::<(), NodeError>(()),
            ) by {
                if q < k {
                    assert(ts2[q] == ts[q] && ts2[q + 1] == ts[q + 1] && made@[q] == m0[q]);
                } else {
                    assert(ts2[q] == before);
                }
            }
            assert forall|q: int| 0 <= q < k + 1 implies id_map.map().contains_key(#[trigger] edges@[q].from_node)
                && id_map.map().contains_key(edges@[q].to_node) by {
                if q == k {
                    assert(edges@[q] == e);
                }
            }
            assert forall|q: int| 0 <= q < ts2.len() implies (#[trigger] ts2[q]).wf() by {
                if q < ts.len() {
                    assert(ts2[q] == ts[q]);
                }
            }
            ts = ts2;
        }
        k = k + 1;
    }
    Ok(made)
}

/// The edge that wires input socket `s` of `g` in `t` becomes once loaded, its ends renamed
/// through their file ids.
pub open spec fn renamed_wire<T>(t: Topology<T>, id_map: Map<usize, GraphNodeId>, g: GraphNodeId, s: int) -> EdgeEntry {
    EdgeEntry {
        from_node: id_map[file_id(t, t.input_of(g, s).unwrap().0) as usize],
        from_socket: t.input_of(g, s).unwrap().1,
        to_node: id_map[file_id(t, g) as usize],
        to_socket: s as usize,
    }
}

/// Edge `k` of `fin` is the renamed wire of some wired input socket of `t`.
pub open spec fn renamed_wire_at<T>(t: Topology<T>, id_map: Map<usize, GraphNodeId>, fin: Seq<EdgeEntry>, k: int) -> bool {
    exists|g: GraphNodeId, s: int| #[trigger] wired_socket(t, g, s) && fin[k] == renamed_wire(t, id_map, g, s)
}

/// Loading the edge list saved from `t` into a graph without connections, each file id standing
/// for a distinct node, when every connection is accepted, leaves as its edges exactly the wiring
/// of `t`, renamed through the file ids: one edge per wired input socket of `t`, and no other.
pub proof fn lemma_loading_saved_edges<T>(
    t: Topology<T>,
    edges: Seq<ProjectEdge>,
    id_map: Map<usize, GraphNodeId>,
    ts: Seq<Topology<T>>,
    conns: Seq<(GraphNodeId, usize, GraphNodeId, usize)>,
)
    requires
        t.wf(),
        forall|k: int| 0 <= k < edges.len() ==> is_stored(t, #[trigger] edges[k]),
        forall|g: GraphNodeId, s: int| #[trigger] wired_socket(t, g, s) ==> edges.contains(stored_edge(t, g, s)),
        forall|k: int, l: int| 0 <= k < l < edges.len() ==> edge_precedes(#[trigger] edges[k], #[trigger] edges[l]),
        forall|a: usize, b: usize|
            id_map.contains_key(a) && id_map.contains_key(b) && a != b ==> #[trigger] id_map[a] != #[trigger] id_map[b],
        conns.len() == edges.len(),
        forall|k: int|
            0 <= k < edges.len() ==> id_map.contains_key(#[trigger] edges[k].from_node) && id_map.contains_key(
                edges[k].to_node,
            ) && conns[k] == resolved_edge(id_map, edges[k]),
        connects_in_order(ts, conns),
        ts[0].edge_list().len() == 0,
    ensures
        ts.last().edge_list().len() == edges.len(),
        forall|k: int|
            0 <= k < ts.last().edge_list().len() ==> #[trigger] renamed_wire_at(t, id_map, ts.last().edge_list(), k),
        forall|g: GraphNodeId, s: int| #[trigger]
            wired_socket(t, g, s) ==> ts.last().edge_list().contains(renamed_wire(t, id_map, g, s)),
{
    assert(distinct_targets(conns)) by {
        assert forall|a: int, b: int| 0 <= a < b < conns.len() implies #[trigger] conns[a].2 != #[trigger] conns[b].2
            || conns[a].3 != conns[b].3 by {
            assert(edge_precedes(edges[a], edges[b]));
            assert(id_map.contains_key(edges[a].from_node) && id_map.contains_key(edges[b].from_node));
            assert(conns[a] == resolved_edge(id_map, edges[a]) && conns[b] == resolved_edge(id_map, edges[b]));
            if edges[a].to_node != edges[b].to_node {
                assert(id_map[edges[a].to_node] != id_map[edges[b].to_node]);
            }
        }
    }
    lemma_replayed_connections(ts, conns);
    let fin = ts.last().edge_list();
    assert forall|k: int| 0 <= k < fin.len() implies #[trigger] renamed_wire_at(t, id_map, fin, k) by {
        assert(is_stored(t, edges[k]));
        let (g, s) = choose|g: GraphNodeId, s: int| #[trigger] wired_socket(t, g, s) && edges[k] == stored_edge(t, g, s);
        assert(id_map.contains_key(edges[k].from_node));
        assert(conns[k] == resolved_edge(id_map, edges[k]));
        assert(fin[k] == edge_of(conns[k]));
        assert(fin[k] == renamed_wire(t, id_map, g, s));
        assert(wired_socket(t, g, s));
    }
    assert forall|g: GraphNodeId, s: int| #[trigger] wired_socket(t, g, s) implies fin.contains(renamed_wire(t, id_map, g, s)) by {
        let k = choose|k: int| 0 <= k < edges.len() && edges[k] == stored_edge(t, g, s);
        assert(id_map.contains_key(edges[k].from_node));
        assert(conns[k] == resolved_edge(id_map, edges[k]));
        assert(fin[k] == edge_of(conns[k]));
        assert(fin[k] == renamed_wire(t, id_map, g, s));
    }
}

} // verus!
