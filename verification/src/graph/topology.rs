//! Pure graph structure: nodes, edges, connectivity. No evaluation state.

use vstd::multiset::Multiset;
use vstd::prelude::*;

use crate::assoc::KeyEq;
use crate::node::error::{decimal, decimal_text};
use crate::node::{NodeError, NodeLocality, NodePortType, NodeShape, SocketDtype};

verus! {

broadcast use vstd::multiset::group_multiset_axioms;

/// Identifies a node of a graph. Ids stay stable: a removed node leaves an empty slot behind.
#[derive(Debug, Clone, Copy, PartialEq, Eq, Hash, Structural)]
pub struct GraphNodeId(pub usize);

impl KeyEq for GraphNodeId {
    fn key_eq(&self, other: &Self) -> (r: bool) {
        self.0 == other.0
    }
}

/// A socket entered by a type search: its node, whether it is an input, and its index.
pub type DtypeKey = (GraphNodeId, bool, usize);

/// `cut` names input socket `s` of node `n`.
pub open spec fn is_cut(cut: Option<(GraphNodeId, usize)>, n: GraphNodeId, s: int) -> bool {
    cut matches Some((cn, cs)) && cn == n && cs as int == s
}

fn cut_at(cut: Option<(GraphNodeId, usize)>, n: GraphNodeId, s: usize) -> (r: bool)
    ensures
        r == is_cut(cut, n, s as int),
{
    match cut {
        Some((cn, cs)) => cn.0 == n.0 && cs == s,
        None => false,
    }
}

/// A connection from an output socket of one node to an input socket of another.
#[derive(Debug, Clone, Copy, PartialEq, Eq, Structural)]
pub struct EdgeEntry {
    pub from_node: GraphNodeId,
    pub from_socket: usize,
    pub to_node: GraphNodeId,
    pub to_socket: usize,
}

/// Whether `e` starts or ends at `id`.
pub open spec fn touches(e: EdgeEntry, id: GraphNodeId) -> bool {
    e.from_node == id || e.to_node == id
}

/// The nodes that the edges of `edges` leaving `f` lead to, with multiplicity.
pub open spec fn targets_from(edges: Seq<EdgeEntry>, f: GraphNodeId) -> Multiset<GraphNodeId>
    decreases edges.len(),
{
    if edges.len() == 0 {
        Multiset::empty()
    } else {
        let rest = targets_from(edges.drop_last(), f);
        if edges.last().from_node == f {
            rest.insert(edges.last().to_node)
        } else {
            rest
        }
    }
}

pub proof fn lemma_targets_push(edges: Seq<EdgeEntry>, e: EdgeEntry, f: GraphNodeId)
    ensures
        targets_from(edges.push(e), f) == if e.from_node == f {
            targets_from(edges, f).insert(e.to_node)
        } else {
            targets_from(edges, f)
        },
{
    assert(edges.push(e).drop_last() =~= edges);
}

/// `x` is among the targets of `f` exactly when some edge leads from `f` to `x`.
pub proof fn lemma_targets_count(edges: Seq<EdgeEntry>, f: GraphNodeId, x: GraphNodeId)
    ensures
        targets_from(edges, f).count(x) > 0 <==> exists|k: int|
            0 <= k < edges.len() && edges[k].from_node == f && edges[k].to_node == x,
    decreases edges.len(),
{
    if edges.len() > 0 {
        let d = edges.drop_last();
        lemma_targets_count(d, f, x);
        if exists|k: int| 0 <= k < edges.len() && edges[k].from_node == f && edges[k].to_node == x {
            let k = choose|k: int| 0 <= k < edges.len() && edges[k].from_node == f && edges[k].to_node == x;
            if k < edges.len() - 1 {
                assert(d[k] == edges[k]);
            }
        }
        if exists|k: int| 0 <= k < d.len() && d[k].from_node == f && d[k].to_node == x {
            let k = choose|k: int| 0 <= k < d.len() && d[k].from_node == f && d[k].to_node == x;
            assert(edges[k] == d[k]);
        }
    }
}

pub proof fn lemma_targets_remove(edges: Seq<EdgeEntry>, i: int, f: GraphNodeId)
    requires
        0 <= i < edges.len(),
    ensures
        targets_from(edges.remove(i), f) == if edges[i].from_node == f {
            targets_from(edges, f).remove(edges[i].to_node)
        } else {
            targets_from(edges, f)
        },
    decreases edges.len(),
{
    if i == edges.len() - 1 {
        assert(edges.remove(i) =~= edges.drop_last());
        if edges[i].from_node == f {
            assert(targets_from(edges, f).remove(edges[i].to_node) =~= targets_from(edges.drop_last(), f));
        }
    } else {
        let d = edges.drop_last();
        lemma_targets_remove(d, i, f);
        assert(edges.remove(i).drop_last() =~= d.remove(i));
        assert(edges.remove(i).last() == edges.last());
        assert(d[i] == edges[i]);
        if edges[i].from_node == f {
            lemma_targets_count(d, f, edges[i].to_node);
            assert(targets_from(d, f).count(edges[i].to_node) > 0);
        }
        assert(targets_from(edges.remove(i), f) =~= if edges[i].from_node == f {
            targets_from(edges, f).remove(edges[i].to_node)
        } else {
            targets_from(edges, f)
        });
    }
}

/// What a filtered sequence holds, and that filtering keeps elements distinct.
pub proof fn lemma_filter_members<A>(s: Seq<A>, p: spec_fn(A) -> bool)
    ensures
        forall|x: A| #[trigger] s.filter(p).contains(x) <==> (s.contains(x) && p(x)),
        s.no_duplicates() ==> s.filter(p).no_duplicates(),
    decreases s.len(),
{
    reveal_with_fuel(Seq::filter, 1);
    if s.len() > 0 {
        let d = s.drop_last();
        let l = s.last();
        lemma_filter_members(d, p);
        let fd = d.filter(p);
        if p(l) {
            assert(s.filter(p) == fd.push(l));
        } else {
            assert(s.filter(p) == fd);
        }
        assert forall|x: A| #[trigger] s.filter(p).contains(x) <==> (s.contains(x) && p(x)) by {
            if s.filter(p).contains(x) {
                let k = choose|k: int| 0 <= k < s.filter(p).len() && s.filter(p)[k] == x;
                if k < fd.len() {
                    assert(fd[k] == x);
                    assert(fd.contains(x));
                    let m = choose|m: int| 0 <= m < d.len() && d[m] == x;
                    assert(s[m] == x);
                } else {
                    assert(s[s.len() - 1] == x);
                }
            }
            if s.contains(x) && p(x) {
                let k = choose|k: int| 0 <= k < s.len() && s[k] == x;
                if k == s.len() - 1 {
                    assert(s.filter(p)[s.filter(p).len() - 1] == x);
                } else {
                    assert(d[k] == x);
                    assert(d.contains(x));
                    assert(fd.contains(x));
                    let m = choose|m: int| 0 <= m < fd.len() && fd[m] == x;
                    assert(s.filter(p)[m] == x);
                }
            }
        }
        if s.no_duplicates() {
            assert(d.no_duplicates()) by {
                assert forall|a: int, b: int| 0 <= a < d.len() && 0 <= b < d.len() && a != b implies d[a] != d[b] by {
                    assert(d[a] == s[a] && d[b] == s[b]);
                }
            }
            if p(l) {
                assert(!d.contains(l)) by {
                    if d.contains(l) {
                        let m = choose|m: int| 0 <= m < d.len() && d[m] == l;
                        assert(s[m] == s[s.len() - 1]);
                    }
                }
                assert(!d.filter(p).contains(l));
                let f = s.filter(p);
                assert forall|a: int, b: int| 0 <= a < f.len() && 0 <= b < f.len() && a != b implies f[a] != f[b] by {
                    if a == f.len() - 1 {
                        assert(d.filter(p)[b] == f[b]);
                    } else if b == f.len() - 1 {
                        assert(d.filter(p)[a] == f[a]);
                    } else {
                        assert(d.filter(p)[a] == f[a]);
                        assert(d.filter(p)[b] == f[b]);
                    }
                }
            }
        }
    }
}

/// Filtering by a predicate that every element meets keeps the sequence whole.
pub proof fn lemma_filter_all<A>(s: Seq<A>, p: spec_fn(A) -> bool)
    requires
        forall|k: int| 0 <= k < s.len() ==> p(s[k]),
    ensures
        s.filter(p) == s,
    decreases s.len(),
{
    reveal_with_fuel(Seq::filter, 1);
    if s.len() > 0 {
        let d = s.drop_last();
        assert forall|k: int| 0 <= k < d.len() implies p(d[k]) by {
            assert(d[k] == s[k]);
        }
        lemma_filter_all(d, p);
        assert(p(s[s.len() - 1]));
        assert(s.filter(p) =~= s);
    }
}

/// Filtering by predicates that agree on every element gives the same sequence.
pub proof fn lemma_filter_congruent<A>(s: Seq<A>, p: spec_fn(A) -> bool, q: spec_fn(A) -> bool)
    requires
        forall|k: int| 0 <= k < s.len() ==> p(s[k]) == q(s[k]),
    ensures
        s.filter(p) == s.filter(q),
    decreases s.len(),
{
    reveal_with_fuel(Seq::filter, 1);
    if s.len() > 0 {
        let d = s.drop_last();
        assert forall|k: int| 0 <= k < d.len() implies p(d[k]) == q(d[k]) by {
            assert(d[k] == s[k]);
        }
        lemma_filter_congruent(d, p, q);
        assert(p(s[s.len() - 1]) == q(s[s.len() - 1]));
    }
}

/// `p`, narrowed to exclude `x`.
pub open spec fn excluding<A>(p: spec_fn(A) -> bool, x: A) -> spec_fn(A) -> bool {
    |e: A| p(e) && e != x
}

/// Removing an element that occurs once from a filtered sequence is filtering it out as well.
pub proof fn lemma_filter_remove<A>(s: Seq<A>, p: spec_fn(A) -> bool, x: A, i: int)
    requires
        s.no_duplicates(),
        0 <= i < s.filter(p).len(),
        s.filter(p)[i] == x,
    ensures
        s.filter(p).remove(i) == s.filter(excluding(p, x)),
    decreases s.len(),
{
    reveal_with_fuel(Seq::filter, 1);
    let q = excluding(p, x);
    let d = s.drop_last();
    let l = s.last();
    let fd = d.filter(p);
    assert(d.no_duplicates()) by {
        assert forall|a: int, b: int| 0 <= a < d.len() && 0 <= b < d.len() && a != b implies d[a] != d[b] by {
            assert(d[a] == s[a] && d[b] == s[b]);
        }
    }
    if l == x {
        assert(s.filter(p) == fd.push(l)) by {
            assert(s[s.len() - 1] == l);
        }
        // x does not occur in d, so it is the last element of the filtered sequence
        if i < fd.len() {
            assert(fd[i] == x);
            assert(fd.contains(x));
            lemma_filter_members(d, p);
            let k = choose|k: int| 0 <= k < d.len() && d[k] == x;
            assert(s[k] == x && s[s.len() - 1] == x);
        }
        assert(s.filter(p).remove(i) =~= fd);
        assert forall|k: int| 0 <= k < d.len() implies p(d[k]) == q(d[k]) by {
            assert(d[k] == s[k]);
            assert(s[s.len() - 1] == x);
        }
        lemma_filter_congruent(d, p, q);
        assert(s.filter(q) == d.filter(q));
    } else {
        if p(l) {
            assert(s.filter(p) == fd.push(l));
            assert(i < fd.len());
            lemma_filter_remove(d, p, x, i);
            assert(s.filter(p).remove(i) =~= fd.remove(i).push(l));
            assert(q(l));
            assert(s.filter(q) == d.filter(q).push(l));
        } else {
            assert(s.filter(p) == fd);
            lemma_filter_remove(d, p, x, i);
            assert(!q(l));
            assert(s.filter(q) == d.filter(q));
        }
    }
}

/// While the edges touching `node_id` are being removed, those still to remove are `rest`: an edge
/// is still present when it does not touch the node or is still listed there.
pub open spec fn kept_edges(node_id: GraphNodeId, rest: Seq<EdgeEntry>) -> spec_fn(EdgeEntry) -> bool {
    |e: EdgeEntry| !(touches(e, node_id) && !rest.contains(e))
}

/// How many entries of `s` are set.
pub open spec fn count_true(s: Seq<bool>) -> nat
    decreases s.len(),
{
    if s.len() == 0 {
        0
    } else {
        count_true(s.drop_last()) + if s.last() { 1nat } else { 0nat }
    }
}

pub proof fn lemma_count_false(n: nat)
    ensures
        count_true(Seq::new(n, |j: int| false)) == 0,
    decreases n,
{
    if n > 0 {
        assert(Seq::new(n, |j: int| false).drop_last() =~= Seq::new((n - 1) as nat, |j: int| false));
        lemma_count_false((n - 1) as nat);
    }
}

pub proof fn lemma_count_true_bound(s: Seq<bool>)
    ensures
        count_true(s) <= s.len(),
    decreases s.len(),
{
    if s.len() > 0 {
        lemma_count_true_bound(s.drop_last());
    }
}

pub proof fn lemma_count_true_set(s: Seq<bool>, i: int)
    requires
        0 <= i < s.len(),
        !s[i],
    ensures
        count_true(s.update(i, true)) == count_true(s) + 1,
    decreases s.len(),
{
    if i < s.len() - 1 {
        lemma_count_true_set(s.drop_last(), i);
        assert(s.update(i, true).drop_last() =~= s.drop_last().update(i, true));
    } else {
        assert(s.update(i, true).drop_last() =~= s.drop_last());
    }
}

/// The debug name of node id `id`, as `{:?}` writes a `GraphNodeId`: `GraphNodeId(3)`.
pub open spec fn node_id_text(id: usize) -> Seq<char> {
    "GraphNodeId("@ + decimal(id as nat) + ")"@
}

/// The debug name of a node id, such as `GraphNodeId(3)`.
pub(crate) fn id_text(id: GraphNodeId) -> (r: String)
    ensures
        r@ == node_id_text(id.0),
{
    let mut s = String::from_str("GraphNodeId(");
    s.append(decimal_text(id.0).as_str());
    s.append(")");
    s
}

struct NodeEntry<T> {
    instance: T,
    shape: NodeShape,
    /// Indexed by input socket: the output socket wired into it, if any.
    inputs: Vec<Option<(GraphNodeId, usize)>>,
    /// One entry per edge leaving this node: the node it leads to.
    outputs: Vec<GraphNodeId>,
}

/// Pure graph structure: nodes, edges, connectivity. No evaluation state.
pub struct Topology<T> {
    /// `None` marks a removed slot, which keeps ids stable.
    nodes: Vec<Option<NodeEntry<T>>>,
    edges: Vec<EdgeEntry>,
}

impl<T> Topology<T> {
    /// Number of node slots, removed ones included.
    pub closed spec fn slot_count(&self) -> nat {
        self.nodes@.len()
    }

    /// The shape of the node in slot `i`, or `None` for a removed slot.
    pub closed spec fn shape_at(&self, i: int) -> Option<NodeShape> {
        match self.nodes@[i] {
            Some(e) => Some(e.shape),
            None => None,
        }
    }

    /// The node itself in slot `i`.
    pub closed spec fn instance_at(&self, i: int) -> T {
        self.nodes@[i].unwrap().instance
    }

    /// The wiring of the input sockets of the node in slot `i`.
    pub closed spec fn inputs_at(&self, i: int) -> Seq<Option<(GraphNodeId, usize)>> {
        self.nodes@[i].unwrap().inputs@
    }

    /// One entry per edge leaving the node in slot `i`, in the order they were made.
    pub closed spec fn outputs_at(&self, i: int) -> Seq<GraphNodeId> {
        self.nodes@[i].unwrap().outputs@
    }

    /// Every edge, in the order it was made.
    pub closed spec fn edge_list(&self) -> Seq<EdgeEntry> {
        self.edges@
    }

    pub open spec fn live(&self, id: GraphNodeId) -> bool {
        id.0 < self.slot_count() && self.shape_at(id.0 as int) is Some
    }

    pub open spec fn shape(&self, id: GraphNodeId) -> NodeShape {
        self.shape_at(id.0 as int).unwrap()
    }

    pub open spec fn instance(&self, id: GraphNodeId) -> T {
        self.instance_at(id.0 as int)
    }

    pub open spec fn input_of(&self, id: GraphNodeId, s: int) -> Option<(GraphNodeId, usize)> {
        self.inputs_at(id.0 as int)[s]
    }

    pub open spec fn outputs_of(&self, id: GraphNodeId) -> Seq<GraphNodeId> {
        self.outputs_at(id.0 as int)
    }

    /// An edge joins two live nodes through sockets they have, and its input socket records it.
    pub open spec fn edge_valid(&self, e: EdgeEntry) -> bool {
        &&& self.live(e.from_node)
        &&& self.live(e.to_node)
        &&& e.from_socket < self.shape(e.from_node).outputs@.len()
        &&& e.to_socket < self.shape(e.to_node).inputs@.len()
        &&& self.input_of(e.to_node, e.to_socket as int) == Some((e.from_node, e.from_socket))
    }

    /// Some edge ends at input socket `s` of `id`.
    pub open spec fn has_edge_into(&self, id: GraphNodeId, s: int) -> bool {
        exists|k: int|
            0 <= k < self.edge_list().len() && self.edge_list()[k].to_node == id
                && self.edge_list()[k].to_socket == s
    }

    /// The structure's invariant: the socket wiring of every node agrees with the edge list,
    /// every input socket holds at most one connection, and each node's outputs list the targets
    /// of the edges leaving it.
    pub open spec fn wf(&self) -> bool {
        &&& forall|i: int|
            0 <= i < self.slot_count() && self.shape_at(i) is Some ==> #[trigger] self.inputs_at(i).len()
                == self.shape_at(i).unwrap().inputs@.len()
        &&& forall|k: int| 0 <= k < self.edge_list().len() ==> #[trigger] self.edge_valid(self.edge_list()[k])
        &&& forall|i: int, s: int|
            0 <= i < self.slot_count() && self.shape_at(i) is Some && 0 <= s < self.inputs_at(i).len()
                && (#[trigger] self.inputs_at(i)[s]) is Some ==> self.has_edge_into(GraphNodeId(i as usize), s)
        &&& forall|k1: int, k2: int|
            0 <= k1 < self.edge_list().len() && 0 <= k2 < self.edge_list().len() && k1 != k2
                ==> !(#[trigger] self.edge_list()[k1].to_node == #[trigger] self.edge_list()[k2].to_node
                && self.edge_list()[k1].to_socket == self.edge_list()[k2].to_socket)
        &&& forall|i: int|
            0 <= i < self.slot_count() && self.shape_at(i) is Some ==> #[trigger] self.outputs_at(i).to_multiset()
                == targets_from(self.edge_list(), GraphNodeId(i as usize))
    }

    /// Nothing but the edges and the wiring they imply differs between `self` and `other`:
    /// every slot holds the same node, with the same shape.
    pub open spec fn same_nodes(&self, other: &Self) -> bool {
        &&& self.slot_count() == other.slot_count()
        &&& forall|i: int| 0 <= i < self.slot_count() ==> #[trigger] self.shape_at(i) == other.shape_at(i)
        &&& forall|i: int|
            0 <= i < self.slot_count() && self.shape_at(i) is Some ==> #[trigger] self.instance_at(i)
                == other.instance_at(i)
    }

    /// `self` and `other` hold the same slots, shapes, wiring and edges; only the nodes themselves
    /// may differ.
    pub open spec fn same_wiring(&self, other: &Self) -> bool {
        &&& self.slot_count() == other.slot_count()
        &&& self.edge_list() == other.edge_list()
        &&& forall|i: int| 0 <= i < self.slot_count() ==> #[trigger] self.shape_at(i) == other.shape_at(i)
        &&& forall|i: int|
            0 <= i < self.slot_count() && self.shape_at(i) is Some ==> #[trigger] self.inputs_at(i)
                == other.inputs_at(i) && self.outputs_at(i) == other.outputs_at(i)
    }

    /// Changing only the nodes themselves keeps a topology well formed.
    pub proof fn lemma_same_wiring_wf(&self, other: &Self)
        requires
            other.wf(),
            self.same_wiring(other),
        ensures
            self.wf(),
    {
        assert forall|k: int| 0 <= k < self.edge_list().len() implies #[trigger] self.edge_valid(self.edge_list()[k]) by {
            assert(other.edge_valid(other.edge_list()[k]));
        }
        assert forall|i: int, s: int|
            0 <= i < self.slot_count() && self.shape_at(i) is Some && 0 <= s < self.inputs_at(i).len()
                && (#[trigger] self.inputs_at(i)[s]) is Some implies self.has_edge_into(GraphNodeId(i as usize), s) by {
            assert(other.inputs_at(i)[s] is Some);
        }
        assert forall|i: int|
            0 <= i < self.slot_count() && self.shape_at(i) is Some implies #[trigger] self.outputs_at(i).to_multiset()
                == targets_from(self.edge_list(), GraphNodeId(i as usize)) by {
            assert(self.inputs_at(i) == other.inputs_at(i));
            assert(other.outputs_at(i).to_multiset() == targets_from(other.edge_list(), GraphNodeId(i as usize)));
        }
        assert forall|i: int|
            0 <= i < self.slot_count() && self.shape_at(i) is Some implies #[trigger] self.inputs_at(i).len()
                == self.shape_at(i).unwrap().inputs@.len() by {
            assert(other.inputs_at(i).len() == other.shape_at(i).unwrap().inputs@.len());
        }
    }

    /// In a well-formed topology edges are distinct, since no two end at the same input socket.
    pub proof fn lemma_edges_distinct(&self)
        requires
            self.wf(),
        ensures
            self.edge_list().no_duplicates(),
    {
        assert forall|i: int, j: int|
            0 <= i < self.edge_list().len() && 0 <= j < self.edge_list().len() && i != j implies self.edge_list()[i]
                != self.edge_list()[j] by {
            assert(!(self.edge_list()[i].to_node == self.edge_list()[j].to_node
                && self.edge_list()[i].to_socket == self.edge_list()[j].to_socket));
        }
    }

    /// Two well-formed topologies with the same nodes and the same edges wire every input socket
    /// alike, and list the same targets, counted with multiplicity, for every output.
    pub proof fn lemma_edges_determine_wiring(&self, other: &Self)
        requires
            self.wf(),
            other.wf(),
            self.same_nodes(other),
            self.edge_list() == other.edge_list(),
        ensures
            forall|n: GraphNodeId| self.live(n) ==> {
                &&& #[trigger] self.inputs_at(n.0 as int) == other.inputs_at(n.0 as int)
                &&& self.outputs_of(n).to_multiset() == other.outputs_of(n).to_multiset()
            },
    {
        assert forall|id: GraphNodeId| self.live(id) implies {
            &&& #[trigger] self.inputs_at(id.0 as int) == other.inputs_at(id.0 as int)
            &&& self.outputs_of(id).to_multiset() == other.outputs_of(id).to_multiset()
        } by {
            let i = id.0 as int;
            assert(GraphNodeId(i as usize) == id);
            assert(self.inputs_at(i).len() == self.shape_at(i).unwrap().inputs@.len());
            assert(other.inputs_at(i).len() == other.shape_at(i).unwrap().inputs@.len());
            assert forall|s: int| 0 <= s < self.inputs_at(i).len() implies self.inputs_at(i)[s] == other.inputs_at(i)[s] by {
                self.lemma_input_edge(id, s);
                other.lemma_input_edge(id, s);
                if self.has_edge_into(id, s) {
                    let k = choose|k: int| 0 <= k < self.edge_list().len() && self.edge_list()[k].to_node == id
                        && self.edge_list()[k].to_socket == s;
                    assert(self.edge_valid(self.edge_list()[k]));
                    assert(other.edge_valid(other.edge_list()[k]));
                } else {
                    assert(!other.has_edge_into(id, s));
                }
            }
            assert(self.inputs_at(i) =~= other.inputs_at(i));
            assert(self.outputs_at(i).to_multiset() == targets_from(self.edge_list(), id));
            assert(other.outputs_at(i).to_multiset() == targets_from(other.edge_list(), id));
        }
    }

    /// In a well-formed topology, input socket `s` of a live node is wired exactly when an edge
    /// ends there, and then it is wired to that edge's source.
    pub proof fn lemma_input_edge(&self, id: GraphNodeId, s: int)
        requires
            self.wf(),
            self.live(id),
            0 <= s < self.shape(id).inputs@.len(),
        ensures
            self.input_of(id, s) is Some <==> self.has_edge_into(id, s),
            self.input_of(id, s) matches Some((f, fs)) ==> self.edge_list().contains(
                EdgeEntry { from_node: f, from_socket: fs, to_node: id, to_socket: s as usize },
            ),
    {
        assert(self.inputs_at(id.0 as int).len() == self.shape_at(id.0 as int).unwrap().inputs@.len());
        if self.input_of(id, s) is Some {
            assert(self.inputs_at(id.0 as int)[s] is Some);
            assert(GraphNodeId(id.0 as usize) == id);
            assert(self.has_edge_into(id, s));
        }
        if self.has_edge_into(id, s) {
            let k = choose|k: int|
                0 <= k < self.edge_list().len() && self.edge_list()[k].to_node == id
                    && self.edge_list()[k].to_socket == s;
            assert(self.edge_valid(self.edge_list()[k]));
            let e = self.edge_list()[k];
            assert(e == EdgeEntry { from_node: e.from_node, from_socket: e.from_socket, to_node: id, to_socket: s as usize });
        }
    }

    /// In a well-formed topology, `x` is among the outputs of a live node `f` exactly when some
    /// edge leads from `f` to `x`.
    pub proof fn lemma_output_edge(&self, f: GraphNodeId, x: GraphNodeId)
        requires
            self.wf(),
            self.live(f),
        ensures
            self.outputs_of(f).contains(x) <==> exists|k: int|
                0 <= k < self.edge_list().len() && self.edge_list()[k].from_node == f
                    && self.edge_list()[k].to_node == x,
    {
        assert(self.outputs_at(f.0 as int).to_multiset() == targets_from(self.edge_list(), GraphNodeId(f.0 as usize)));
        assert(GraphNodeId(f.0 as usize) == f);
        lemma_targets_count(self.edge_list(), f, x);
        self.outputs_of(f).to_multiset_ensures();
    }

    fn entry(&self, id: GraphNodeId) -> (r: Result<&NodeEntry<T>, NodeError>)
        ensures
            r matches Ok(e) ==> self.live(id) && self.nodes@[id.0 as int] == Some(*e),
            r is Err ==> !self.live(id) && r == Err::<&NodeEntry<T>, NodeError>(NodeError::NodeNotFound(id)),
    {
        if id.0 < self.nodes.len() {
            match &self.nodes[id.0] {
                Some(e) => Ok(e),
                None => Err(NodeError::NodeNotFound(id)),
            }
        } else {
            Err(NodeError::NodeNotFound(id))
        }
    }

    /// Whether `id` names a node of the graph.
    pub fn contains(&self, id: GraphNodeId) -> (r: bool)
        ensures
            r == self.live(id),
    {
        self.entry(id).is_ok()
    }

    pub fn new() -> (r: Self)
        ensures
            r.wf(),
            r.slot_count() == 0,
            r.edge_list() == Seq::<EdgeEntry>::empty(),
    {
        Topology { nodes: Vec::new(), edges: Vec::new() }
    }

    /// `new` is `self` with `node`, of shape `shape`, added unwired under the fresh id `id`.
    pub open spec fn adds_node(&self, new: &Self, id: GraphNodeId, node: T, shape: NodeShape) -> bool {
        &&& (id.0 == self.slot_count())
        &&& (new.slot_count() == self.slot_count() + 1)
        &&& (new.live(id))
        &&& (new.shape(id) == shape)
        &&& (new.instance(id) == node)
        &&& (forall|s: int| 0 <= s < shape.inputs@.len() ==> #[trigger] new.input_of(id, s) is None)
        &&& (new.outputs_of(id) == Seq::<GraphNodeId>::empty())
        &&& (new.edge_list() == self.edge_list())
        &&& (forall|i: int| 0 <= i < self.slot_count() ==> #[trigger] new.shape_at(i) == self.shape_at(i))
        &&& (forall|i: int|
            0 <= i < self.slot_count() && self.shape_at(i) is Some ==> {
                &&& #[trigger] new.instance_at(i) == self.instance_at(i)
                &&& new.inputs_at(i) == self.inputs_at(i)
                &&& new.outputs_at(i) == self.outputs_at(i)
            })
    }

    /// Adds `node`, whose sockets and locality are described by `shape`, with every input
    /// unconnected. Its id is the next free slot; ids of removed nodes are never reused.
    pub fn add_node(&mut self, node: T, shape: NodeShape) -> (id: GraphNodeId)
        requires
            old(self).wf(),
            old(self).slot_count() < usize::MAX,
        ensures
            final(self).wf(),
            old(self).adds_node(final(self), id, node, shape),
    {
        let n = shape.inputs.len();
        let ghost sh = shape;
        assert(sh.inputs@.len() == n);
        let mut inputs: Vec<Option<(GraphNodeId, usize)>> = Vec::new();
        let mut k: usize = 0;
        while k < n
            invariant
                k <= n,
                inputs@.len() == k,
                forall|j: int| 0 <= j < k ==> inputs@[j] is None,
            decreases n - k,
        {
            inputs.push(None);
            k = k + 1;
        }
        let id = GraphNodeId(self.nodes.len());
        self.nodes.push(Some(NodeEntry { instance: node, shape, inputs, outputs: Vec::new() }));
        proof {
            assert forall|k: int| 0 <= k < self.edge_list().len() implies #[trigger] self.edge_valid(self.edge_list()[k]) by {
                assert(old(self).edge_valid(old(self).edge_list()[k]));
                let e = self.edge_list()[k];
                assert(self.nodes@[e.to_node.0 as int] == old(self).nodes@[e.to_node.0 as int]);
                assert(self.nodes@[e.from_node.0 as int] == old(self).nodes@[e.from_node.0 as int]);
            }
            assert forall|i: int, s: int|
                0 <= i < self.slot_count() && self.shape_at(i) is Some && 0 <= s < self.inputs_at(i).len()
                    && (#[trigger] self.inputs_at(i)[s]) is Some implies self.has_edge_into(GraphNodeId(i as usize), s) by {
                if i < old(self).slot_count() {
                    assert(self.nodes@[i] == old(self).nodes@[i]);
                    assert(old(self).inputs_at(i)[s] is Some);
                }
            }
            assert forall|i: int|
                0 <= i < self.slot_count() && self.shape_at(i) is Some implies #[trigger] self.outputs_at(i).to_multiset()
                    == targets_from(self.edge_list(), GraphNodeId(i as usize)) by {
                if i < old(self).slot_count() {
                    assert(self.nodes@[i] == old(self).nodes@[i]);
                    assert(old(self).outputs_at(i).to_multiset() == targets_from(old(self).edge_list(), GraphNodeId(i as usize)));
                } else {
                    assert(i == id.0);
                    lemma_targets_count(self.edge_list(), id, id);
                    assert forall|x: GraphNodeId| targets_from(self.edge_list(), id).count(x) == 0 by {
                        lemma_targets_count(self.edge_list(), id, x);
                        if targets_from(self.edge_list(), id).count(x) > 0 {
                            let k = choose|k: int| 0 <= k < self.edge_list().len() && self.edge_list()[k].from_node == id && self.edge_list()[k].to_node == x;
                            assert(old(self).edge_valid(old(self).edge_list()[k]));
                        }
                    }
                    assert(self.outputs_at(i) == Seq::<GraphNodeId>::empty());
                    assert(targets_from(self.edge_list(), id) =~= Multiset::empty());
                    assert(Seq::<GraphNodeId>::empty().to_multiset() =~= Multiset::empty()) by {
                        Seq::<GraphNodeId>::empty().to_multiset_ensures();
                    }
                }
            }
            assert forall|i: int|
                0 <= i < self.slot_count() && self.shape_at(i) is Some implies #[trigger] self.inputs_at(i).len()
                    == self.shape_at(i).unwrap().inputs@.len() by {
                if i < old(self).slot_count() {
                    assert(self.nodes@[i] == old(self).nodes@[i]);
                    assert(old(self).inputs_at(i).len() == old(self).shape_at(i).unwrap().inputs@.len());
                } else {
                    assert(self.shape_at(i) == Some(sh));
                    assert(self.inputs_at(i).len() == n);
                }
            }
        }
        id
    }

    /// The node `id`.
    pub fn node(&self, id: GraphNodeId) -> (r: Result<&T, NodeError>)
        ensures
            r matches Ok(n) ==> self.live(id) && *n == self.instance(id),
            r is Err ==> !self.live(id) && r == Err::<&T, NodeError>(NodeError::NodeNotFound(id)),
    {
        match self.entry(id) {
            Ok(e) => Ok(&e.instance),
            Err(err) => Err(err),
        }
    }

    /// Mutable access to node `id`. Only the node itself can change through it: its shape, its
    /// wiring and every other node stay as they are.
    pub fn node_mut(&mut self, id: GraphNodeId) -> (r: Result<&mut T, NodeError>)
        requires
            old(self).wf(),
        ensures
            r is Ok <==> old(self).live(id),
            r is Err ==> *final(self) == *old(self) && r == Err::<&mut T, NodeError>(NodeError::NodeNotFound(id)),
            r matches Ok(n) ==> *n == old(self).instance(id),
            r matches Ok(n) ==> final(self).instance(id) == *final(n),
            r is Ok ==> final(self).same_wiring(old(self)),
            r is Ok ==> forall|i: int|
                0 <= i < old(self).slot_count() && old(self).shape_at(i) is Some && i != id.0
                    ==> #[trigger] final(self).instance_at(i) == old(self).instance_at(i),
    {
        if id.0 >= self.nodes.len() || self.nodes[id.0].is_none() {
            return Err(NodeError::NodeNotFound(id));
        }
        match &mut self.nodes[id.0] {
            Some(e) => Ok(&mut e.instance),
            None => Err(NodeError::NodeNotFound(id)),
        }
    }

    /// The shape the graph keeps for node `id`.
    pub fn shape_of(&self, id: GraphNodeId) -> (r: Result<&NodeShape, NodeError>)
        ensures
            r matches Ok(s) ==> self.live(id) && *s == self.shape(id),
            r is Err ==> !self.live(id) && r == Err::<&NodeShape, NodeError>(NodeError::NodeNotFound(id)),
    {
        match self.entry(id) {
            Ok(e) => Ok(&e.shape),
            Err(err) => Err(err),
        }
    }

    /// Indexed by input socket: `Some((from_node, from_socket))` for a wired socket, `None` for an unconnected one.
    pub fn inputs(&self, id: GraphNodeId) -> (r: Result<&[Option<(GraphNodeId, usize)>], NodeError>)
        ensures
            r matches Ok(s) ==> self.live(id) && s@ == self.inputs_at(id.0 as int),
            r is Err ==> !self.live(id) && r == Err::<&[Option<(GraphNodeId, usize)>], NodeError>(
                NodeError::NodeNotFound(id),
            ),
    {
        match self.entry(id) {
            Ok(e) => Ok(e.inputs.as_slice()),
            Err(err) => Err(err),
        }
    }

    /// One entry per edge leaving `id`: the node it leads to.
    pub fn outputs(&self, id: GraphNodeId) -> (r: Result<&[GraphNodeId], NodeError>)
        ensures
            r matches Ok(s) ==> self.live(id) && s@ == self.outputs_of(id),
            r is Err ==> !self.live(id) && r == Err::<&[GraphNodeId], NodeError>(NodeError::NodeNotFound(id)),
    {
        match self.entry(id) {
            Ok(e) => Ok(e.outputs.as_slice()),
            Err(err) => Err(err),
        }
    }

    /// Every edge currently in the graph, as `(from_node, from_socket, to_node, to_socket)`, in
    /// the order they were made.
    pub fn edges(&self) -> (r: Vec<(GraphNodeId, usize, GraphNodeId, usize)>)
        ensures
            r@.len() == self.edge_list().len(),
            forall|k: int|
                0 <= k < r@.len() ==> #[trigger] r@[k] == (
                    self.edge_list()[k].from_node,
                    self.edge_list()[k].from_socket,
                    self.edge_list()[k].to_node,
                    self.edge_list()[k].to_socket,
                ),
    {
        let mut r: Vec<(GraphNodeId, usize, GraphNodeId, usize)> = Vec::new();
        let mut k: usize = 0;
        while k < self.edges.len()
            invariant
                k <= self.edges@.len(),
                r@.len() == k,
                forall|j: int|
                    0 <= j < k ==> #[trigger] r@[j] == (
                        self.edges@[j].from_node,
                        self.edges@[j].from_socket,
                        self.edges@[j].to_node,
                        self.edges@[j].to_socket,
                    ),
            decreases self.edges@.len() - k,
        {
            let e = self.edges[k];
            r.push((e.from_node, e.from_socket, e.to_node, e.to_socket));
            k = k + 1;
        }
        r
    }

    /// The name of output socket `socket` of `node`, when both exist.
    pub open spec fn output_socket_name(&self, node: GraphNodeId, socket: int) -> Option<Seq<char>> {
        if self.live(node) && 0 <= socket < self.shape(node).outputs@.len() {
            Some(self.shape(node).outputs@[socket].name@)
        } else {
            None
        }
    }

    /// The name of input socket `socket` of `node`, when both exist.
    pub open spec fn input_socket_name(&self, node: GraphNodeId, socket: int) -> Option<Seq<char>> {
        if self.live(node) && 0 <= socket < self.shape(node).inputs@.len() {
            Some(self.shape(node).inputs@[socket].name@)
        } else {
            None
        }
    }

    /// Falls back to the numeric index if the node or socket no longer exists.
    fn output_socket_label(&self, node: GraphNodeId, socket: usize) -> (r: String)
        ensures
            self.output_socket_name(node, socket as int) matches Some(name) ==> r@ == name,
            self.output_socket_name(node, socket as int) is None ==> r@ == decimal(socket as nat),
    {
        if let Ok(e) = self.entry(node) {
            if socket < e.shape.outputs.len() {
                return e.shape.outputs[socket].name.to_owned();
            }
        }
        decimal_text(socket)
    }

    /// Falls back to the numeric index if the node or socket no longer exists.
    fn input_socket_label(&self, node: GraphNodeId, socket: usize) -> (r: String)
        ensures
            self.input_socket_name(node, socket as int) matches Some(name) ==> r@ == name,
            self.input_socket_name(node, socket as int) is None ==> r@ == decimal(socket as nat),
    {
        if let Ok(e) = self.entry(node) {
            if socket < e.shape.inputs.len() {
                return e.shape.inputs[socket].name.to_owned();
            }
        }
        decimal_text(socket)
    }

    fn find_edge(&self, e: EdgeEntry) -> (r: Option<usize>)
        ensures
            r matches Some(i) ==> i < self.edge_list().len() && self.edge_list()[i as int] == e,
            r is None ==> !self.edge_list().contains(e),
    {
        let mut i: usize = 0;
        while i < self.edges.len()
            invariant
                i <= self.edges@.len(),
                forall|j: int| 0 <= j < i ==> self.edges@[j] != e,
            decreases self.edges@.len() - i,
        {
            if self.edges[i] == e {
                return Some(i);
            }
            i = i + 1;
        }
        None
    }

    /// `new` and `r` are what disconnecting the given edge from `self` gives.
    pub open spec fn disconnects(&self, new: &Self, from_node: GraphNodeId, from_socket: usize, to_node: GraphNodeId, to_socket: usize, r: Result<(), NodeError>) -> bool {
        &&& (new.same_nodes(self))
        &&& (({
            let e = EdgeEntry { from_node, from_socket, to_node, to_socket };
            &&& r is Ok <==> self.edge_list().contains(e)
            &&& r is Ok ==> {
                &&& new.edge_list() == self.edge_list().remove(self.edge_list().index_of(e))
                &&& new.outputs_of(from_node) == self.outputs_of(from_node).remove_value(to_node)
                &&& forall|i: int|
                    0 <= i < self.slot_count() && self.shape_at(i) is Some && i != from_node.0
                        ==> #[trigger] new.outputs_at(i) == self.outputs_at(i)
            }
            &&& r is Err ==> *new == *self
            &&& r matches Err(err) ==> (err matches NodeError::NotConnected {
                from_node: f, from_socket: fs, to_node: t, to_socket: ts } && f == from_node && t == to_node
                && (self.output_socket_name(from_node, from_socket as int) matches Some(n) ==> fs@ == n)
                && (self.output_socket_name(from_node, from_socket as int) is None
                    ==> fs@ == decimal(from_socket as nat))
                && (self.input_socket_name(to_node, to_socket as int) matches Some(n) ==> ts@ == n)
                && (self.input_socket_name(to_node, to_socket as int) is None
                    ==> ts@ == decimal(to_socket as nat)))
        }))
    }

    /// Removes the edge from output `from_socket` of `from_node` to input `to_socket` of
    /// `to_node`; fails with `NotConnected` when there is no such edge.
    pub fn disconnect(
        &mut self,
        from_node: GraphNodeId,
        from_socket: usize,
        to_node: GraphNodeId,
        to_socket: usize,
    ) -> (r: Result<(), NodeError>)
        requires
            old(self).wf(),
        ensures
            final(self).wf(),
            old(self).disconnects(final(self), from_node, from_socket, to_node, to_socket, r),
    {
        let e = EdgeEntry { from_node, from_socket, to_node, to_socket };
        match self.find_edge(e) {
            None => Err(
                NodeError::NotConnected {
                    from_node,
                    from_socket: self.output_socket_label(from_node, from_socket),
                    to_node,
                    to_socket: self.input_socket_label(to_node, to_socket),
                },
            ),
            Some(idx) => {
                let ghost old_edges = self.edges@;
                proof {
                    self.lemma_edges_distinct();
                    assert(self.edge_valid(self.edges@[idx as int]));
                    self.lemma_output_edge(from_node, to_node);
                    assert(self.edges@[idx as int].from_node == from_node);
                }
                self.edges.remove(idx);
                let ghost te0 = self.nodes@[to_node.0 as int].unwrap();
                let mut te = self.nodes[to_node.0].take().unwrap();
                te.inputs.set(to_socket, None);
                let ghost te1 = te;
                self.nodes.set(to_node.0, Some(te));
                let ghost mid = self.nodes@;
                let ghost fe0 = self.nodes@[from_node.0 as int].unwrap();
                let mut fe = self.nodes[from_node.0].take().unwrap();
                let mut pos: usize = 0;
                while pos < fe.outputs.len()
                    invariant
                        pos <= fe.outputs@.len(),
                        forall|j: int| 0 <= j < pos ==> fe.outputs@[j] != to_node,
                    ensures
                        pos <= fe.outputs@.len(),
                        forall|j: int| 0 <= j < pos ==> fe.outputs@[j] != to_node,
                        pos < fe.outputs@.len() ==> fe.outputs@[pos as int] == to_node,
                    decreases fe.outputs@.len() - pos,
                {
                    if fe.outputs[pos] == to_node {
                        break;
                    }
                    pos = pos + 1;
                }
                fe.outputs.remove(pos);
                let ghost fe1 = fe;
                self.nodes.set(from_node.0, Some(fe));
                proof {
                    let o = old(self);
                    let ti = to_node.0 as int;
                    let fi = from_node.0 as int;
                    assert(self.nodes.len() == self.nodes@.len());
                    assert(te1.shape == te0.shape && te1.instance == te0.instance);
                    assert(te1.inputs@ == te0.inputs@.update(to_socket as int, None));
                    assert(te1.outputs@ == te0.outputs@);
                    assert(mid == o.nodes@.update(ti, Some(te1)));
                    assert(fe1.shape == fe0.shape && fe1.instance == fe0.instance);
                    assert(fe1.inputs@ == fe0.inputs@);
                    assert(fe1.outputs@ == fe0.outputs@.remove(pos as int));
                    if fi == ti {
                        assert(fe0 == te1);
                    } else {
                        assert(fe0 == o.nodes@[fi].unwrap());
                    }
                    assert(fe0.outputs@ == o.outputs_at(fi));
                    assert(fe0.outputs@[pos as int] == to_node);
                    assert(self.nodes@ == mid.update(fi, Some(fe1)));
                    assert(self.edges@ == old_edges.remove(idx as int));
                    assert(o.edge_list() == old_edges);
                    // every slot keeps its node and shape
                    assert forall|i: int| 0 <= i < self.slot_count() implies #[trigger] self.shape_at(i) == o.shape_at(i) by {
                        if i == fi {} else if i == ti {} else {}
                    }
                    assert forall|i: int| 0 <= i < self.slot_count() && self.shape_at(i) is Some
                        implies #[trigger] self.instance_at(i) == o.instance_at(i) by {
                        if i == fi {} else if i == ti {} else {}
                    }
                    // inputs: only socket (to, to_socket) changed
                    assert forall|i: int| 0 <= i < self.slot_count() && self.shape_at(i) is Some
                        implies #[trigger] self.inputs_at(i) == if i == ti {
                            o.inputs_at(i).update(to_socket as int, None)
                        } else {
                            o.inputs_at(i)
                        } by {
                        if i == fi {} else if i == ti {} else {}
                    }
                    // outputs: only `from` lost one occurrence of `to`
                    assert forall|i: int| 0 <= i < self.slot_count() && self.shape_at(i) is Some
                        implies #[trigger] self.outputs_at(i) == if i == fi {
                            o.outputs_at(i).remove(pos as int)
                        } else {
                            o.outputs_at(i)
                        } by {
                        if i == fi {} else if i == ti {} else {}
                    }
                    assert(self.same_nodes(o));
                    let ee = old_edges[idx as int];
                    assert(ee == e);
                    // wf: input lengths
                    assert forall|i: int|
                        0 <= i < self.slot_count() && self.shape_at(i) is Some implies #[trigger] self.inputs_at(i).len()
                            == self.shape_at(i).unwrap().inputs@.len() by {
                        assert(o.inputs_at(i).len() == o.shape_at(i).unwrap().inputs@.len());
                        assert(self.inputs_at(i) == if i == ti {
                            o.inputs_at(i).update(to_socket as int, None)
                        } else {
                            o.inputs_at(i)
                        });
                    }
                    // wf: surviving edges stay valid
                    assert forall|k: int| 0 <= k < self.edge_list().len() implies #[trigger] self.edge_valid(self.edge_list()[k]) by {
                        let k2 = if k < idx { k } else { k + 1 };
                        assert(self.edge_list()[k] == old_edges[k2]);
                        assert(o.edge_valid(old_edges[k2]));
                        assert(k2 != idx);
                        assert(!(old_edges[k2].to_node == old_edges[idx as int].to_node
                            && old_edges[k2].to_socket == old_edges[idx as int].to_socket));
                        let x = old_edges[k2];
                        assert(self.inputs_at(x.to_node.0 as int) == if x.to_node.0 as int == ti {
                            o.inputs_at(x.to_node.0 as int).update(to_socket as int, None)
                        } else {
                            o.inputs_at(x.to_node.0 as int)
                        });
                    }
                    // wf: a wired input still has its edge
                    assert forall|i: int, s: int|
                        0 <= i < self.slot_count() && self.shape_at(i) is Some && 0 <= s < self.inputs_at(i).len()
                            && (#[trigger] self.inputs_at(i)[s]) is Some implies self.has_edge_into(GraphNodeId(i as usize), s) by {
                        assert(self.inputs_at(i) == if i == ti {
                            o.inputs_at(i).update(to_socket as int, None)
                        } else {
                            o.inputs_at(i)
                        });
                        assert(!(i == ti && s == to_socket));
                        assert(o.inputs_at(i)[s] is Some);
                        assert(o.inputs_at(i).len() == o.shape_at(i).unwrap().inputs@.len());
                        assert(o.has_edge_into(GraphNodeId(i as usize), s));
                        let k = choose|k: int| 0 <= k < old_edges.len() && old_edges[k].to_node == GraphNodeId(i as usize)
                            && old_edges[k].to_socket == s;
                        if k == idx {
                            assert(self.nodes.len() == self.nodes@.len());
                            assert(i as usize == to_node.0);
                            assert(i == ti);
                            assert(false);
                        }
                        let k2 = if k < idx { k } else { k - 1 };
                        assert(self.edge_list()[k2] == old_edges[k]);
                    }
                    // wf: input sockets still hold one edge each
                    assert forall|k1: int, k2: int|
                        0 <= k1 < self.edge_list().len() && 0 <= k2 < self.edge_list().len() && k1 != k2
                            implies !(#[trigger] self.edge_list()[k1].to_node == #[trigger] self.edge_list()[k2].to_node
                            && self.edge_list()[k1].to_socket == self.edge_list()[k2].to_socket) by {
                        let a = if k1 < idx { k1 } else { k1 + 1 };
                        let b = if k2 < idx { k2 } else { k2 + 1 };
                        assert(self.edge_list()[k1] == old_edges[a]);
                        assert(self.edge_list()[k2] == old_edges[b]);
                        assert(!(old_edges[a].to_node == old_edges[b].to_node && old_edges[a].to_socket == old_edges[b].to_socket));
                    }
                    // wf: outputs match the edges
                    assert forall|i: int|
                        0 <= i < self.slot_count() && self.shape_at(i) is Some implies #[trigger] self.outputs_at(i).to_multiset()
                            == targets_from(self.edge_list(), GraphNodeId(i as usize)) by {
                        let g = GraphNodeId(i as usize);
                        lemma_targets_remove(old_edges, idx as int, g);
                        assert(o.outputs_at(i).to_multiset() == targets_from(old_edges, g));
                        if i == fi {
                            assert(g == from_node);
                            assert(o.outputs_at(i)[pos as int] == to_node);
                            vstd::seq_lib::to_multiset_remove(o.outputs_at(i), pos as int);
                        } else {
                            assert(g != from_node);
                        }
                    }
                    // the first occurrence of `to_node` was removed
                    o.outputs_of(from_node).index_of_first_ensures(to_node);
                    assert(o.outputs_of(from_node).contains(to_node));
                    assert(final(self).outputs_of(from_node) == o.outputs_of(from_node).remove_value(to_node));
                    // the removed edge sat at its only position
                    assert(old_edges.index_of(e) == idx as int);
                }
                Ok(())
            },
        }
    }

    // ------------------------------------------------------------------------------------------
    // Socket type resolution
    // ------------------------------------------------------------------------------------------

    /// The declared type of a socket, or `None` when the node or socket does not exist.
    pub open spec fn socket_dtype(&self, n: GraphNodeId, s: int, is_input: bool) -> Option<SocketDtype> {
        if self.live(n) {
            let socks = if is_input { self.shape(n).inputs@ } else { self.shape(n).outputs@ };
            if 0 <= s < socks.len() { Some(socks[s].dtype) } else { None }
        } else {
            None
        }
    }

    pub open spec fn in_len(&self, n: GraphNodeId) -> nat {
        self.shape(n).inputs@.len()
    }

    pub open spec fn out_len(&self, n: GraphNodeId) -> nat {
        self.shape(n).outputs@.len()
    }

    /// The type a socket resolves to, searching depth-first through the `Generic` sockets it is
    /// wired to, in socket order and then edge order, and never entering a socket twice
    /// (`vis` holds the sockets already entered). Returns the result and the grown `vis`.
    /// `fuel` bounds the depth of the search; with enough of it (see `key_bound`) it is never
    /// exhausted.
    pub open spec fn res_socket(
        &self,
        n: GraphNodeId,
        s: usize,
        is_input: bool,
        cut: Option<(GraphNodeId, usize)>,
        vis: Set<DtypeKey>,
        fuel: nat,
    ) -> (Option<NodePortType>, Set<DtypeKey>)
        decreases fuel, 0nat, 0nat, 0nat,
    {
        match self.socket_dtype(n, s as int, is_input) {
            None => (None, vis),
            Some(SocketDtype::Fixed(t)) => (Some(t), vis),
            Some(SocketDtype::Generic) => {
                if vis.contains((n, is_input, s)) {
                    (None, vis)
                } else if fuel == 0 {
                    (None, vis.insert((n, is_input, s)))
                } else {
                    self.res_group_in(n, 0, cut, vis.insert((n, is_input, s)), (fuel - 1) as nat)
                }
            },
        }
    }

    /// The search through the `Generic` input sockets of `n` from socket `i` on, then its outputs.
    pub open spec fn res_group_in(&self, n: GraphNodeId, i: nat, cut: Option<(GraphNodeId, usize)>, vis: Set<DtypeKey>, fuel: nat) -> (
        Option<NodePortType>,
        Set<DtypeKey>,
    )
        decreases fuel, 3nat, if i < self.in_len(n) { (self.in_len(n) - i) as nat } else { 0nat }, 0nat,
    {
        if !self.live(n) || i >= self.in_len(n) {
            self.res_group_out(n, 0, cut, vis, fuel)
        } else if self.shape(n).inputs@[i as int].dtype != SocketDtype::Generic || is_cut(cut, n, i as int) {
            self.res_group_in(n, i + 1, cut, vis, fuel)
        } else {
            match self.input_of(n, i as int) {
                None => self.res_group_in(n, i + 1, cut, vis, fuel),
                Some((f, fs)) => {
                    let (r, vis2) = self.res_socket(f, fs, false, cut, vis, fuel);
                    if r is Some {
                        (r, vis2)
                    } else {
                        self.res_group_in(n, i + 1, cut, vis2, fuel)
                    }
                },
            }
        }
    }

    /// The search through the `Generic` output sockets of `n` from socket `j` on.
    pub open spec fn res_group_out(&self, n: GraphNodeId, j: nat, cut: Option<(GraphNodeId, usize)>, vis: Set<DtypeKey>, fuel: nat) -> (
        Option<NodePortType>,
        Set<DtypeKey>,
    )
        decreases fuel, 2nat, if j < self.out_len(n) { (self.out_len(n) - j) as nat } else { 0nat },
            self.edge_list().len() + 1,
    {
        if !self.live(n) || j >= self.out_len(n) {
            (None, vis)
        } else if self.shape(n).outputs@[j as int].dtype != SocketDtype::Generic {
            self.res_group_out(n, j + 1, cut, vis, fuel)
        } else {
            self.res_down(n, j, 0, cut, vis, fuel)
        }
    }

    /// The search through the edges leaving output socket `j` of `n`, from edge `k` on.
    pub open spec fn res_down(&self, n: GraphNodeId, j: nat, k: nat, cut: Option<(GraphNodeId, usize)>, vis: Set<DtypeKey>, fuel: nat) -> (
        Option<NodePortType>,
        Set<DtypeKey>,
    )
        decreases fuel, 2nat, if j < self.out_len(n) { (self.out_len(n) - j) as nat } else { 0nat },
            if k < self.edge_list().len() { (self.edge_list().len() - k) as nat } else { 0nat },
    {
        if !self.live(n) || j >= self.out_len(n) {
            (None, vis)
        } else if k >= self.edge_list().len() {
            self.res_group_out(n, j + 1, cut, vis, fuel)
        } else {
            let e = self.edge_list()[k as int];
            if e.from_node == n && e.from_socket == j && !is_cut(cut, e.to_node, e.to_socket as int) {
                let (r, vis2) = self.res_socket(e.to_node, e.to_socket, true, cut, vis, fuel);
                if r is Some {
                    (r, vis2)
                } else {
                    self.res_down(n, j, k + 1, cut, vis2, fuel)
                }
            } else {
                self.res_down(n, j, k + 1, cut, vis, fuel)
            }
        }
    }

    /// A socket that exists.
    pub open spec fn key_valid(&self, key: DtypeKey) -> bool {
        self.socket_dtype(key.0, key.2 as int, key.1) is Some
    }

    /// Every socket of the nodes in slots below `i`.
    pub open spec fn keys_upto(&self, i: nat) -> Seq<DtypeKey>
        decreases i,
    {
        if i == 0 {
            Seq::empty()
        } else {
            let n = GraphNodeId((i - 1) as usize);
            let own = if self.live(n) {
                Seq::new(self.in_len(n), |s: int| (n, true, s as usize)) + Seq::new(
                    self.out_len(n),
                    |s: int| (n, false, s as usize),
                )
            } else {
                Seq::empty()
            };
            self.keys_upto((i - 1) as nat) + own
        }
    }

    /// The number of sockets of the graph, bounding the depth of a type search.
    pub open spec fn key_bound(&self) -> nat {
        self.keys_upto(self.slot_count()).len()
    }

    /// The type that socket `s` of `n` resolves to: immediate for `Fixed`, or derived from
    /// wiring for `Generic`.
    pub open spec fn resolved_dtype(&self, n: GraphNodeId, s: usize, is_input: bool) -> Option<NodePortType> {
        self.resolved_dtype_cut(n, s, is_input, None)
    }

    /// The type that socket `s` of `n` resolves to when the wire into the input socket `cut`, if
    /// any, is left out of the search.
    pub open spec fn resolved_dtype_cut(&self, n: GraphNodeId, s: usize, is_input: bool, cut: Option<(GraphNodeId, usize)>) -> Option<NodePortType> {
        self.res_socket(n, s, is_input, cut, Set::empty(), self.key_bound()).0
    }

    /// Edge `q` leaves a `Generic` output of `n`, and is not the wire into the input socket `cut`.
    pub open spec fn leaves_group(&self, n: GraphNodeId, cut: Option<(GraphNodeId, usize)>, q: int) -> bool {
        &&& 0 <= q < self.edge_list().len()
        &&& self.edge_list()[q].from_node == n
        &&& self.shape(n).outputs@[self.edge_list()[q].from_socket as int].dtype == SocketDtype::Generic
        &&& !is_cut(cut, self.edge_list()[q].to_node, self.edge_list()[q].to_socket as int)
    }

    /// The `Generic` group of `n` takes its type from downstream only: none of its `Generic`
    /// inputs is wired (the socket `cut` aside), some edge leaves one of its `Generic` outputs, and
    /// every such edge ends at an input socket of the fixed type `t`.
    pub open spec fn drains_into(&self, n: GraphNodeId, t: NodePortType, cut: Option<(GraphNodeId, usize)>) -> bool {
        &&& forall|i: int|
            0 <= i < self.in_len(n) && self.shape(n).inputs@[i].dtype == SocketDtype::Generic && !is_cut(cut, n, i)
                ==> #[trigger] self.input_of(n, i) is None
        &&& exists|q: int| #[trigger] self.leaves_group(n, cut, q)
        &&& forall|q: int| #[trigger] self.leaves_group(n, cut, q) ==> self.socket_dtype(
            self.edge_list()[q].to_node,
            self.edge_list()[q].to_socket as int,
            true,
        ) == Some(SocketDtype::Fixed(t))
    }

    /// Some edge that leaves the group of `n` comes at or after edge `k` of output `j`, in the
    /// order the search takes them.
    spec fn group_edge_ahead(&self, n: GraphNodeId, cut: Option<(GraphNodeId, usize)>, j: nat, k: nat) -> bool {
        exists|q: int|
            #[trigger] self.leaves_group(n, cut, q) && (self.edge_list()[q].from_socket > j || (
            self.edge_list()[q].from_socket == j && q >= k))
    }

    proof fn lemma_down_finds(&self, n: GraphNodeId, t: NodePortType, cut: Option<(GraphNodeId, usize)>, j: nat, k: nat, vis: Set<DtypeKey>, fuel: nat)
        requires
            self.wf(),
            self.live(n),
            self.drains_into(n, t, cut),
            j < self.out_len(n),
            self.shape(n).outputs@[j as int].dtype == SocketDtype::Generic,
            self.group_edge_ahead(n, cut, j, k),
        ensures
            self.res_down(n, j, k, cut, vis, fuel).0 == Some(t),
        decreases fuel, 2nat, (self.out_len(n) - j) as nat, if k < self.edge_list().len() {
            (self.edge_list().len() - k) as nat
        } else {
            0nat
        },
    {
        let q = choose|q: int| #[trigger] self.leaves_group(n, cut, q) && (self.edge_list()[q].from_socket > j || (
            self.edge_list()[q].from_socket == j && q >= k));
        if k >= self.edge_list().len() {
            assert(self.edge_list()[q].from_socket > j);
            assert(self.edge_valid(self.edge_list()[q]));
            assert(self.group_edge_ahead(n, cut, j + 1, 0));
            self.lemma_out_finds(n, t, cut, j + 1, vis, fuel);
            assert(self.res_down(n, j, k, cut, vis, fuel) == self.res_group_out(n, j + 1, cut, vis, fuel));
        } else {
            let e = self.edge_list()[k as int];
            if e.from_node == n && e.from_socket == j && !is_cut(cut, e.to_node, e.to_socket as int) {
                assert(self.leaves_group(n, cut, k as int));
                assert(self.socket_dtype(e.to_node, e.to_socket as int, true) == Some(SocketDtype::Fixed(t)));
                assert(self.res_socket(e.to_node, e.to_socket, true, cut, vis, fuel) == (Some(t), vis));
            } else {
                if q == k {
                    assert(self.edge_list()[q] == e);
                }
                assert(self.group_edge_ahead(n, cut, j, k + 1));
                self.lemma_down_finds(n, t, cut, j, k + 1, vis, fuel);
            }
        }
    }

    proof fn lemma_out_finds(&self, n: GraphNodeId, t: NodePortType, cut: Option<(GraphNodeId, usize)>, j: nat, vis: Set<DtypeKey>, fuel: nat)
        requires
            self.wf(),
            self.live(n),
            self.drains_into(n, t, cut),
            self.group_edge_ahead(n, cut, j, 0),
        ensures
            self.res_group_out(n, j, cut, vis, fuel).0 == Some(t),
        decreases fuel, 2nat, if j < self.out_len(n) { (self.out_len(n) - j) as nat } else { 0nat },
            self.edge_list().len() + 1,
    {
        let q = choose|q: int| #[trigger] self.leaves_group(n, cut, q) && (self.edge_list()[q].from_socket > j || (
            self.edge_list()[q].from_socket == j && q >= 0));
        assert(self.edge_valid(self.edge_list()[q]));
        if j >= self.out_len(n) {
            assert(false);
        } else if self.shape(n).outputs@[j as int].dtype != SocketDtype::Generic {
            assert(self.edge_list()[q].from_socket != j);
            assert(self.group_edge_ahead(n, cut, j + 1, 0));
            self.lemma_out_finds(n, t, cut, j + 1, vis, fuel);
        } else {
            self.lemma_down_finds(n, t, cut, j, 0, vis, fuel);
        }
    }

    proof fn lemma_in_finds(&self, n: GraphNodeId, t: NodePortType, cut: Option<(GraphNodeId, usize)>, i: nat, vis: Set<DtypeKey>, fuel: nat)
        requires
            self.wf(),
            self.live(n),
            self.drains_into(n, t, cut),
        ensures
            self.res_group_in(n, i, cut, vis, fuel).0 == Some(t),
        decreases if i < self.in_len(n) { (self.in_len(n) - i) as nat } else { 0nat },
    {
        if i >= self.in_len(n) {
            let q = choose|q: int| #[trigger] self.leaves_group(n, cut, q);
            assert(self.group_edge_ahead(n, cut, 0, 0));
            self.lemma_out_finds(n, t, cut, 0, vis, fuel);
        } else {
            if self.shape(n).inputs@[i as int].dtype == SocketDtype::Generic && !is_cut(cut, n, i as int) {
                assert(self.input_of(n, i as int) is None);
            }
            self.lemma_in_finds(n, t, cut, i + 1, vis, fuel);
        }
    }

    /// Input `i` of `n` is `Generic`, is not the socket `cut`, and is wired.
    pub open spec fn feeds_group(&self, n: GraphNodeId, cut: Option<(GraphNodeId, usize)>, i: int) -> bool {
        &&& 0 <= i < self.in_len(n)
        &&& self.shape(n).inputs@[i].dtype == SocketDtype::Generic
        &&& !is_cut(cut, n, i)
        &&& self.input_of(n, i) is Some
    }

    /// The `Generic` group of `n` takes its type from upstream: some of its `Generic` inputs (the
    /// socket `cut` aside) is wired, and every such input is wired to an output of the fixed type
    /// `t`.
    pub open spec fn fed_from(&self, n: GraphNodeId, t: NodePortType, cut: Option<(GraphNodeId, usize)>) -> bool {
        &&& exists|i: int| #[trigger] self.feeds_group(n, cut, i)
        &&& forall|i: int| #[trigger] self.feeds_group(n, cut, i) ==> self.socket_dtype(
            self.input_of(n, i).unwrap().0,
            self.input_of(n, i).unwrap().1 as int,
            false,
        ) == Some(SocketDtype::Fixed(t))
    }

    proof fn lemma_in_takes_upstream(&self, n: GraphNodeId, t: NodePortType, cut: Option<(GraphNodeId, usize)>, i: nat, vis: Set<DtypeKey>, fuel: nat)
        requires
            self.live(n),
            self.fed_from(n, t, cut),
            exists|i2: int| #[trigger] self.feeds_group(n, cut, i2) && i2 >= i,
        ensures
            self.res_group_in(n, i, cut, vis, fuel).0 == Some(t),
        decreases if i < self.in_len(n) { (self.in_len(n) - i) as nat } else { 0nat },
    {
        let i2 = choose|i2: int| #[trigger] self.feeds_group(n, cut, i2) && i2 >= i;
        if self.feeds_group(n, cut, i as int) {
            let (f, fs) = self.input_of(n, i as int).unwrap();
            assert(self.socket_dtype(f, fs as int, false) == Some(SocketDtype::Fixed(t)));
            assert(self.res_socket(f, fs, false, cut, vis, fuel) == (Some(t), vis));
        } else {
            assert(i2 != i);
            self.lemma_in_takes_upstream(n, t, cut, i + 1, vis, fuel);
        }
    }

    /// Types resolve upstream first: where every wired `Generic` input of `n` (the socket `cut`
    /// aside) is fed by an output of the fixed type `t`, and one is, every `Generic` socket of `n`
    /// resolves to `t`, whatever its outputs feed.
    pub proof fn lemma_generic_resolves_upstream(
        &self,
        n: GraphNodeId,
        s: usize,
        is_input: bool,
        t: NodePortType,
        cut: Option<(GraphNodeId, usize)>,
    )
        requires
            self.socket_dtype(n, s as int, is_input) == Some(SocketDtype::Generic),
            self.fed_from(n, t, cut),
        ensures
            self.resolved_dtype_cut(n, s, is_input, cut) == Some(t),
    {
        self.lemma_key_bound_positive(n, s as int, is_input);
        self.lemma_in_takes_upstream(n, t, cut, 0, Set::<DtypeKey>::empty().insert((n, is_input, s)), (self.key_bound() - 1) as nat);
    }

    proof fn lemma_keys_upto_grows(&self, i: nat, j: nat)
        requires
            i <= j,
        ensures
            self.keys_upto(i).len() <= self.keys_upto(j).len(),
        decreases j,
    {
        if i < j {
            self.lemma_keys_upto_grows(i, (j - 1) as nat);
        }
    }

    /// A graph with a socket leaves the type search some depth to go.
    proof fn lemma_key_bound_positive(&self, n: GraphNodeId, s: int, is_input: bool)
        requires
            self.socket_dtype(n, s, is_input) is Some,
        ensures
            self.key_bound() > 0,
    {
        let i = (n.0 + 1) as nat;
        assert(GraphNodeId((i - 1) as usize) == n);
        assert(self.keys_upto(i).len() >= self.in_len(n) + self.out_len(n));
        self.lemma_keys_upto_grows(i, self.slot_count());
    }

    /// Types resolve downstream: where the `Generic` group of `n` takes its type from downstream
    /// only (see `drains_into`), every `Generic` socket of `n` resolves to the fixed type `t` of
    /// the inputs that its outputs feed.
    pub proof fn lemma_generic_resolves_downstream(
        &self,
        n: GraphNodeId,
        s: usize,
        is_input: bool,
        t: NodePortType,
        cut: Option<(GraphNodeId, usize)>,
    )
        requires
            self.wf(),
            self.socket_dtype(n, s as int, is_input) == Some(SocketDtype::Generic),
            self.drains_into(n, t, cut),
        ensures
            self.resolved_dtype_cut(n, s, is_input, cut) == Some(t),
    {
        self.lemma_key_bound_positive(n, s as int, is_input);
        self.lemma_in_finds(n, t, cut, 0, Set::<DtypeKey>::empty().insert((n, is_input, s)), (self.key_bound() - 1) as nat);
    }

    proof fn lemma_keys_upto(&self, i: nat, key: DtypeKey)
        requires
            i <= self.slot_count(),
            self.key_valid(key),
            key.0.0 < i,
            self.slot_count() <= usize::MAX,
        ensures
            self.keys_upto(i).contains(key),
        decreases i,
    {
        let n = GraphNodeId((i - 1) as usize);
        if key.0.0 == i - 1 {
            assert(key.0 == n);
            let own = Seq::new(self.in_len(n), |s: int| (n, true, s as usize)) + Seq::new(
                self.out_len(n),
                |s: int| (n, false, s as usize),
            );
            if key.1 {
                assert(own[key.2 as int] == key);
            } else {
                assert(own[self.in_len(n) + key.2] == key);
            }
            assert((self.keys_upto((i - 1) as nat) + own)[self.keys_upto((i - 1) as nat).len() + (if key.1 {
                key.2 as int
            } else {
                self.in_len(n) + key.2
            })] == key);
        } else {
            self.lemma_keys_upto((i - 1) as nat, key);
            let prev = self.keys_upto((i - 1) as nat);
            let k = choose|k: int| 0 <= k < prev.len() && #[trigger] prev[k] == key;
            let own = if self.live(n) {
                Seq::new(self.in_len(n), |s: int| (n, true, s as usize)) + Seq::new(
                    self.out_len(n),
                    |s: int| (n, false, s as usize),
                )
            } else {
                Seq::empty()
            };
            assert((self.keys_upto((i - 1) as nat) + own)[k] == key);
        }
    }

    /// A set of distinct valid sockets has fewer members than `key_bound`, and leaves room for
    /// one more valid socket outside it.
    proof fn lemma_vis_bound(&self, vis: Set<DtypeKey>, key: DtypeKey)
        requires
            forall|k: DtypeKey| vis.contains(k) ==> self.key_valid(k),
            self.key_valid(key),
            !vis.contains(key),
            self.slot_count() <= usize::MAX,
        ensures
            vis.finite(),
            vis.len() < self.key_bound(),
    {
        let all = self.keys_upto(self.slot_count());
        let big = vis.insert(key);
        assert forall|k: DtypeKey| big.contains(k) implies all.to_set().contains(k) by {
            self.lemma_keys_upto(self.slot_count(), k);
        }
        vstd::seq_lib::seq_to_set_is_finite(all);
        all.lemma_cardinality_of_set();
        vstd::set_lib::lemma_len_subset(big, all.to_set());
        vstd::set_lib::lemma_set_subset_finite(all.to_set(), big);
        assert(vis.subset_of(all.to_set())) by {
            assert forall|k: DtypeKey| vis.contains(k) implies all.to_set().contains(k) by {
                assert(big.contains(k));
            }
        }
        vstd::set_lib::lemma_set_subset_finite(all.to_set(), vis);
    }

    fn vis_contains(vis: &Vec<DtypeKey>, key: DtypeKey) -> (r: bool)
        ensures
            r == vis@.contains(key),
    {
        let mut i: usize = 0;
        while i < vis.len()
            invariant
                i <= vis@.len(),
                forall|j: int| 0 <= j < i ==> vis@[j] != key,
            decreases vis@.len() - i,
        {
            let v = vis[i];
            if v.0 == key.0 && v.1 == key.1 && v.2 == key.2 {
                assert(vis@[i as int] == key);
                return true;
            }
            i = i + 1;
        }
        false
    }

    fn resolve_socket_dtype(
        &self,
        n: GraphNodeId,
        s: usize,
        is_input: bool,
        cut: Option<(GraphNodeId, usize)>,
        vis: &mut Vec<DtypeKey>,
        Ghost(fuel): Ghost<nat>,
    ) -> (r: Option<NodePortType>)
        requires
            self.wf(),
            old(vis)@.no_duplicates(),
            forall|k: DtypeKey| old(vis)@.contains(k) ==> self.key_valid(k),
            fuel + old(vis)@.to_set().len() >= self.key_bound(),
        ensures
            final(vis)@.no_duplicates(),
            forall|k: DtypeKey| final(vis)@.contains(k) ==> self.key_valid(k),
            forall|k: DtypeKey| old(vis)@.contains(k) ==> final(vis)@.contains(k),
            (r, final(vis)@.to_set()) == self.res_socket(n, s, is_input, cut, old(vis)@.to_set(), fuel),
        decreases fuel, 0nat,
    {
        assert(self.nodes.len() == self.nodes@.len());
        let e = match self.entry(n) {
            Ok(e) => e,
            Err(_) => return None,
        };
        let dt = if is_input {
            if s >= e.shape.inputs.len() {
                return None;
            }
            e.shape.inputs[s].dtype
        } else {
            if s >= e.shape.outputs.len() {
                return None;
            }
            e.shape.outputs[s].dtype
        };
        match dt {
            SocketDtype::Fixed(t) => Some(t),
            SocketDtype::Generic => {
                let key = (n, is_input, s);
                if Self::vis_contains(vis, key) {
                    return None;
                }
                proof {
                    vis@.unique_seq_to_set();
                    self.lemma_vis_bound(vis@.to_set(), key);
                }
                let ghost v0 = vis@;
                vis.push(key);
                proof {
                    assert(vis@ == v0.push(key));
                    v0.lemma_push_to_set_commute(key);
                    assert(vis@.to_set() =~= v0.to_set().insert(key));
                    assert forall|a: int, b: int| 0 <= a < vis@.len() && 0 <= b < vis@.len() && a != b implies vis@[a] != vis@[b] by {
                        if a == v0.len() {
                            assert(v0.contains(vis@[b]));
                        } else if b == v0.len() {
                            assert(v0.contains(vis@[a]));
                        }
                    }
                    vis@.unique_seq_to_set();
                    assert forall|k: DtypeKey| v0.contains(k) implies vis@.contains(k) by {
                        let j = choose|j: int| 0 <= j < v0.len() && v0[j] == k;
                        assert(vis@[j] == k);
                    }
                    assert forall|k: DtypeKey| vis@.contains(k) implies self.key_valid(k) by {
                        let j = choose|j: int| 0 <= j < vis@.len() && vis@[j] == k;
                        if j < v0.len() {
                            assert(v0[j] == k);
                        }
                    }
                }
                self.resolve_group_dtype(n, cut, vis, Ghost((fuel - 1) as nat))
            },
        }
    }

    fn resolve_group_dtype(&self, n: GraphNodeId, cut: Option<(GraphNodeId, usize)>, vis: &mut Vec<DtypeKey>, Ghost(fuel): Ghost<nat>) -> (r:
        Option<NodePortType>)
        requires
            self.wf(),
            self.live(n),
            old(vis)@.no_duplicates(),
            forall|k: DtypeKey| old(vis)@.contains(k) ==> self.key_valid(k),
            fuel + old(vis)@.to_set().len() >= self.key_bound(),
        ensures
            final(vis)@.no_duplicates(),
            forall|k: DtypeKey| final(vis)@.contains(k) ==> self.key_valid(k),
            forall|k: DtypeKey| old(vis)@.contains(k) ==> final(vis)@.contains(k),
            (r, final(vis)@.to_set()) == self.res_group_in(n, 0, cut, old(vis)@.to_set(), fuel),
        decreases fuel, 1nat,
    {
        let e = match self.entry(n) {
            Ok(e) => e,
            Err(_) => return None,
        };
        let ghost vis0 = vis@.to_set();
        let ghost target = self.res_group_in(n, 0, cut, vis0, fuel);
        proof {
            vstd::seq_lib::seq_to_set_is_finite(vis@);
        }
        let mut i: usize = 0;
        while i < e.shape.inputs.len()
            invariant
                self.wf(),
                self.live(n),
                self.nodes@[n.0 as int] == Some(*e),
                i <= e.shape.inputs@.len(),
                vis@.no_duplicates(),
                forall|k: DtypeKey| vis@.contains(k) ==> self.key_valid(k),
                forall|k: DtypeKey| old(vis)@.contains(k) ==> vis@.contains(k),
                fuel + vis@.to_set().len() >= self.key_bound(),
                self.res_group_in(n, i as nat, cut, vis@.to_set(), fuel) == target,
                target == self.res_group_in(n, 0, cut, old(vis)@.to_set(), fuel),
            decreases e.shape.inputs@.len() - i,
        {
            if e.shape.inputs[i].dtype == SocketDtype::Generic && !cut_at(cut, n, i) {
                proof {
                    assert(e.inputs@.len() == e.shape.inputs@.len());
                }
                if let Some((f, fs)) = e.inputs[i] {
                    let ghost before = vis@;
                    let r = self.resolve_socket_dtype(f, fs, false, cut, vis, Ghost(fuel));
                    proof {
                        vstd::seq_lib::seq_to_set_is_finite(vis@);
                        vstd::set_lib::lemma_len_subset(before.to_set(), vis@.to_set());
                    }
                    if r.is_some() {
                        proof {
                            assert(e.shape == self.shape(n));
                            assert(self.input_of(n, i as int) == Some((f, fs)));
                            assert(self.res_group_in(n, i as nat, cut, before.to_set(), fuel) == (r, vis@.to_set()));
                        }
                        return r;
                    }
                }
            }
            i = i + 1;
        }
        let mut j: usize = 0;
        while j < e.shape.outputs.len()
            invariant
                self.wf(),
                self.live(n),
                self.nodes@[n.0 as int] == Some(*e),
                j <= e.shape.outputs@.len(),
                vis@.no_duplicates(),
                forall|k: DtypeKey| vis@.contains(k) ==> self.key_valid(k),
                forall|k: DtypeKey| old(vis)@.contains(k) ==> vis@.contains(k),
                fuel + vis@.to_set().len() >= self.key_bound(),
                self.res_group_out(n, j as nat, cut, vis@.to_set(), fuel) == target,
                target == self.res_group_in(n, 0, cut, old(vis)@.to_set(), fuel),
            decreases e.shape.outputs@.len() - j,
        {
            if e.shape.outputs[j].dtype == SocketDtype::Generic {
                let mut k: usize = 0;
                while k < self.edges.len()
                    invariant
                        self.wf(),
                        self.live(n),
                        self.nodes@[n.0 as int] == Some(*e),
                        j < e.shape.outputs@.len(),
                        k <= self.edges@.len(),
                        vis@.no_duplicates(),
                        forall|q: DtypeKey| vis@.contains(q) ==> self.key_valid(q),
                        forall|q: DtypeKey| old(vis)@.contains(q) ==> vis@.contains(q),
                        fuel + vis@.to_set().len() >= self.key_bound(),
                        self.res_down(n, j as nat, k as nat, cut, vis@.to_set(), fuel) == target,
                        target == self.res_group_in(n, 0, cut, old(vis)@.to_set(), fuel),
                    decreases self.edges@.len() - k,
                {
                    let ed = self.edges[k];
                    if ed.from_node == n && ed.from_socket == j && !cut_at(cut, ed.to_node, ed.to_socket) {
                        let ghost before = vis@;
                        let r = self.resolve_socket_dtype(ed.to_node, ed.to_socket, true, cut, vis, Ghost(fuel));
                        proof {
                            vstd::seq_lib::seq_to_set_is_finite(vis@);
                            vstd::set_lib::lemma_len_subset(before.to_set(), vis@.to_set());
                        }
                        if r.is_some() {
                            proof {
                                assert(e.shape == self.shape(n));
                                assert(self.edge_list()[k as int] == ed);
                                assert(self.res_down(n, j as nat, k as nat, cut, before.to_set(), fuel) == (r, vis@.to_set()));
                            }
                            return r;
                        }
                    }
                    k = k + 1;
                }
            }
            j = j + 1;
        }
        None
    }

    /// The concrete `NodePortType` an output socket resolves to - immediate for `Fixed`, or
    /// derived from wiring for `Generic` (e.g. a blending node's output once its inputs are wired).
    pub fn output_dtype(&self, node_id: GraphNodeId, socket: usize) -> (r: Option<NodePortType>)
        requires
            self.wf(),
        ensures
            r == self.resolved_dtype(node_id, socket, false),
    {
        self.resolve(node_id, socket, false, None)
    }

    fn resolve(&self, node_id: GraphNodeId, socket: usize, is_input: bool, cut: Option<(GraphNodeId, usize)>) -> (r: Option<NodePortType>)
        requires
            self.wf(),
        ensures
            r == self.resolved_dtype_cut(node_id, socket, is_input, cut),
    {
        let mut vis: Vec<DtypeKey> = Vec::new();
        proof {
            assert(vis@.to_set() =~= Set::<DtypeKey>::empty());
        }
        self.resolve_socket_dtype(node_id, socket, is_input, cut, &mut vis, Ghost(self.key_bound()))
    }

    /// Both ends of a prospective edge resolve to a type, and the types differ. The wire that the
    /// edge would replace, the one now plugged into `to_socket`, takes no part in the search.
    pub open spec fn dtype_mismatch(&self, from_node: GraphNodeId, from_socket: usize, to_node: GraphNodeId, to_socket: usize) -> bool {
        let cut = Some((to_node, to_socket));
        &&& self.resolved_dtype_cut(from_node, from_socket, false, cut) is Some
        &&& self.resolved_dtype_cut(to_node, to_socket, true, cut) is Some
        &&& self.resolved_dtype_cut(from_node, from_socket, false, cut) != self.resolved_dtype_cut(to_node, to_socket, true, cut)
    }

    /// Every check that `connect` makes passes.
    pub open spec fn can_connect(&self, from_node: GraphNodeId, from_socket: usize, to_node: GraphNodeId, to_socket: usize) -> bool {
        &&& self.live(from_node)
        &&& from_socket < self.out_len(from_node)
        &&& self.live(to_node)
        &&& to_socket < self.in_len(to_node)
        &&& !self.dtype_mismatch(from_node, from_socket, to_node, to_socket)
    }

    /// The edges left once input socket `to_socket` of `to_node` is freed.
    pub open spec fn edges_freeing(&self, to_node: GraphNodeId, to_socket: usize) -> Seq<EdgeEntry> {
        match self.input_of(to_node, to_socket as int) {
            Some((f, fs)) => self.edge_list().remove(
                self.edge_list().index_of(EdgeEntry { from_node: f, from_socket: fs, to_node, to_socket }),
            ),
            None => self.edge_list(),
        }
    }

    /// Wires a free input socket to an output socket.
    fn attach(&mut self, e: EdgeEntry)
        requires
            old(self).wf(),
            old(self).live(e.from_node),
            old(self).live(e.to_node),
            e.from_socket < old(self).out_len(e.from_node),
            e.to_socket < old(self).in_len(e.to_node),
            old(self).input_of(e.to_node, e.to_socket as int) is None,
        ensures
            final(self).wf(),
            final(self).same_nodes(old(self)),
            final(self).edge_list() == old(self).edge_list().push(e),
            final(self).input_of(e.to_node, e.to_socket as int) == Some((e.from_node, e.from_socket)),
            final(self).outputs_of(e.from_node) == old(self).outputs_of(e.from_node).push(e.to_node),
            forall|i: int|
                0 <= i < old(self).slot_count() && old(self).shape_at(i) is Some && i != e.from_node.0
                    ==> #[trigger] final(self).outputs_at(i) == old(self).outputs_at(i),
    {
        let ghost o = *self;
        proof {
            o.lemma_input_edge(e.to_node, e.to_socket as int);
            assert(self.nodes.len() == self.nodes@.len());
        }
        let mut te = self.nodes[e.to_node.0].take().unwrap();
        proof {
            assert(te.inputs@.len() == te.shape.inputs@.len());
        }
        te.inputs.set(e.to_socket, Some((e.from_node, e.from_socket)));
        let ghost te1 = te;
        self.nodes.set(e.to_node.0, Some(te));
        let ghost mid = self.nodes@;
        let ghost fe0 = self.nodes@[e.from_node.0 as int].unwrap();
        let mut fe = self.nodes[e.from_node.0].take().unwrap();
        fe.outputs.push(e.to_node);
        let ghost fe1 = fe;
        self.nodes.set(e.from_node.0, Some(fe));
        self.edges.push(e);
        proof {
            let ti = e.to_node.0 as int;
            let fi = e.from_node.0 as int;
            let te0 = o.nodes@[ti].unwrap();
            assert(te1.inputs@ == te0.inputs@.update(e.to_socket as int, Some((e.from_node, e.from_socket))));
            assert(mid == o.nodes@.update(ti, Some(te1)));
            if fi == ti {
                assert(fe0 == te1);
            } else {
                assert(fe0 == o.nodes@[fi].unwrap());
            }
            assert(fe1.outputs@ == fe0.outputs@.push(e.to_node));
            assert(self.nodes@ == mid.update(fi, Some(fe1)));
            assert(self.edges@ == o.edge_list().push(e));
            assert forall|i: int| 0 <= i < self.slot_count() implies #[trigger] self.shape_at(i) == o.shape_at(i) by {
                if i == fi {} else if i == ti {} else {}
            }
            assert forall|i: int| 0 <= i < self.slot_count() && self.shape_at(i) is Some
                implies #[trigger] self.instance_at(i) == o.instance_at(i) by {
                if i == fi {} else if i == ti {} else {}
            }
            assert forall|i: int| 0 <= i < self.slot_count() && self.shape_at(i) is Some
                implies #[trigger] self.inputs_at(i) == if i == ti {
                    o.inputs_at(i).update(e.to_socket as int, Some((e.from_node, e.from_socket)))
                } else {
                    o.inputs_at(i)
                } by {
                if i == fi {} else if i == ti {} else {}
            }
            assert forall|i: int| 0 <= i < self.slot_count() && self.shape_at(i) is Some
                implies #[trigger] self.outputs_at(i) == if i == fi {
                    o.outputs_at(i).push(e.to_node)
                } else {
                    o.outputs_at(i)
                } by {
                if i == fi {} else if i == ti {} else {}
            }
            assert(self.same_nodes(&o));
            // no old edge ends at the socket being wired
            assert forall|k: int| 0 <= k < o.edge_list().len() implies !(o.edge_list()[k].to_node == e.to_node
                && o.edge_list()[k].to_socket == e.to_socket) by {
                if o.edge_list()[k].to_node == e.to_node && o.edge_list()[k].to_socket == e.to_socket {
                    assert(o.edge_list()[k] == o.edge_list()[k]);
                    assert(o.has_edge_into(e.to_node, e.to_socket as int));
                }
            }
            assert forall|i: int|
                0 <= i < self.slot_count() && self.shape_at(i) is Some implies #[trigger] self.inputs_at(i).len()
                    == self.shape_at(i).unwrap().inputs@.len() by {
                assert(o.inputs_at(i).len() == o.shape_at(i).unwrap().inputs@.len());
                assert(self.inputs_at(i) == if i == ti {
                    o.inputs_at(i).update(e.to_socket as int, Some((e.from_node, e.from_socket)))
                } else {
                    o.inputs_at(i)
                });
            }
            assert forall|k: int| 0 <= k < self.edge_list().len() implies #[trigger] self.edge_valid(self.edge_list()[k]) by {
                if k < o.edge_list().len() {
                    let x = o.edge_list()[k];
                    assert(self.edge_list()[k] == x);
                    assert(o.edge_valid(x));
                    assert(self.shape_at(x.to_node.0 as int) == o.shape_at(x.to_node.0 as int));
                    assert(self.inputs_at(x.to_node.0 as int) == if x.to_node.0 as int == ti {
                        o.inputs_at(x.to_node.0 as int).update(e.to_socket as int, Some((e.from_node, e.from_socket)))
                    } else {
                        o.inputs_at(x.to_node.0 as int)
                    });
                } else {
                    assert(self.edge_list()[k] == e);
                    assert(self.shape_at(ti) == o.shape_at(ti));
                    assert(self.inputs_at(ti) == o.inputs_at(ti).update(e.to_socket as int, Some((e.from_node, e.from_socket))));
                }
            }
            assert forall|i: int, s: int|
                0 <= i < self.slot_count() && self.shape_at(i) is Some && 0 <= s < self.inputs_at(i).len()
                    && (#[trigger] self.inputs_at(i)[s]) is Some implies self.has_edge_into(GraphNodeId(i as usize), s) by {
                assert(self.inputs_at(i) == if i == ti {
                    o.inputs_at(i).update(e.to_socket as int, Some((e.from_node, e.from_socket)))
                } else {
                    o.inputs_at(i)
                });
                if i == ti && s == e.to_socket {
                    assert(self.edge_list()[o.edge_list().len() as int] == e);
                } else {
                    assert(o.inputs_at(i)[s] is Some);
                    assert(o.inputs_at(i).len() == o.shape_at(i).unwrap().inputs@.len());
                    assert(o.has_edge_into(GraphNodeId(i as usize), s));
                    let k = choose|k: int| 0 <= k < o.edge_list().len() && o.edge_list()[k].to_node == GraphNodeId(i as usize)
                        && o.edge_list()[k].to_socket == s;
                    assert(self.edge_list()[k] == o.edge_list()[k]);
                }
            }
            assert forall|k1: int, k2: int|
                0 <= k1 < self.edge_list().len() && 0 <= k2 < self.edge_list().len() && k1 != k2
                    implies !(#[trigger] self.edge_list()[k1].to_node == #[trigger] self.edge_list()[k2].to_node
                    && self.edge_list()[k1].to_socket == self.edge_list()[k2].to_socket) by {
                let n0 = o.edge_list().len() as int;
                if k1 < n0 && k2 < n0 {
                    assert(self.edge_list()[k1] == o.edge_list()[k1]);
                    assert(self.edge_list()[k2] == o.edge_list()[k2]);
                    assert(!(o.edge_list()[k1].to_node == o.edge_list()[k2].to_node && o.edge_list()[k1].to_socket == o.edge_list()[k2].to_socket));
                } else if k1 < n0 {
                    assert(self.edge_list()[k1] == o.edge_list()[k1]);
                    assert(self.edge_list()[k2] == e);
                } else {
                    assert(self.edge_list()[k2] == o.edge_list()[k2]);
                    assert(self.edge_list()[k1] == e);
                }
            }
            assert forall|i: int|
                0 <= i < self.slot_count() && self.shape_at(i) is Some implies #[trigger] self.outputs_at(i).to_multiset()
                    == targets_from(self.edge_list(), GraphNodeId(i as usize)) by {
                let g = GraphNodeId(i as usize);
                lemma_targets_push(o.edge_list(), e, g);
                assert(o.outputs_at(i).to_multiset() == targets_from(o.edge_list(), g));
                if i == fi {
                    assert(g == e.from_node);
                    o.outputs_at(i).to_multiset_ensures();
                } else {
                    assert(g != e.from_node);
                }
            }
        }
    }

    /// `new` and `r` are what connecting the given sockets in `self` gives.
    pub open spec fn connects(&self, new: &Self, from_node: GraphNodeId, from_socket: usize, to_node: GraphNodeId, to_socket: usize, r: Result<(), NodeError>) -> bool {
        &&& (new.same_nodes(self))
        &&& (r is Ok <==> self.can_connect(from_node, from_socket, to_node, to_socket))
        &&& (r is Err ==> *new == *self)
        &&& (!self.live(from_node) ==> r == Err::<(), NodeError>(NodeError::NodeNotFound(from_node)))
        &&& (self.live(from_node) && from_socket >= self.out_len(from_node) ==> (r matches Err(
            NodeError::OutputSocketNotFound { node, socket },
        ) && socket == from_socket && node@ == node_id_text(from_node.0)))
        &&& (self.live(from_node) && from_socket < self.out_len(from_node) && !self.live(to_node)
            ==> r == Err::<(), NodeError>(NodeError::NodeNotFound(to_node)))
        &&& (self.live(from_node) && from_socket < self.out_len(from_node) && self.live(to_node)
            && to_socket >= self.in_len(to_node) ==> (r matches Err(
            NodeError::InputSocketNotFound { node, socket },
        ) && socket == to_socket && node@ == node_id_text(to_node.0)))
        &&& (self.live(from_node) && from_socket < self.out_len(from_node) && self.live(to_node)
            && to_socket < self.in_len(to_node) && self.dtype_mismatch(
            from_node,
            from_socket,
            to_node,
            to_socket,
        ) ==> (r matches Err(NodeError::SocketTypeMismatch { from_node: fnode, from_socket: fs, to_node: tnode, to_socket: ts })
            && fs@ == self.shape(from_node).outputs@[from_socket as int].name@
            && ts@ == self.shape(to_node).inputs@[to_socket as int].name@ && fnode@ == node_id_text(from_node.0)
            && tnode@ == node_id_text(to_node.0)))
        &&& (r is Ok ==> {
            &&& new.edge_list() == self.edges_freeing(to_node, to_socket).push(
                EdgeEntry { from_node, from_socket, to_node, to_socket },
            )
            &&& new.input_of(to_node, to_socket as int) == Some((from_node, from_socket))
        })
    }

    /// Wires output `from_socket` of `from_node` into input `to_socket` of `to_node`. An input
    /// socket holds at most one connection: whatever was plugged into it is disconnected first.
    /// Fails, changing nothing, when a node or socket does not exist or when both ends resolve to
    /// different port types; the wire being replaced has no say in how they resolve.
    pub fn connect(
        &mut self,
        from_node: GraphNodeId,
        from_socket: usize,
        to_node: GraphNodeId,
        to_socket: usize,
    ) -> (r: Result<(), NodeError>)
        requires
            old(self).wf(),
        ensures
            final(self).wf(),
            old(self).connects(final(self), from_node, from_socket, to_node, to_socket, r),
    {
        let fe = match self.entry(from_node) {
            Ok(e) => e,
            Err(err) => return Err(err),
        };
        if from_socket >= fe.shape.outputs.len() {
            return Err(NodeError::OutputSocketNotFound { node: id_text(from_node), socket: from_socket });
        }
        let from_label = fe.shape.outputs[from_socket].name;
        let te = match self.entry(to_node) {
            Ok(e) => e,
            Err(err) => return Err(err),
        };
        if to_socket >= te.shape.inputs.len() {
            return Err(NodeError::InputSocketNotFound { node: id_text(to_node), socket: to_socket });
        }
        let to_label = te.shape.inputs[to_socket].name;
        let from_dtype = self.resolve(from_node, from_socket, false, Some((to_node, to_socket)));
        let to_dtype = self.resolve(to_node, to_socket, true, Some((to_node, to_socket)));
        if let (Some(f), Some(t)) = (from_dtype, to_dtype) {
            if f != t {
                return Err(
                    NodeError::SocketTypeMismatch {
                        from_node: id_text(from_node),
                        from_socket: from_label.to_owned(),
                        to_node: id_text(to_node),
                        to_socket: to_label.to_owned(),
                    },
                );
            }
        }
        proof {
            assert(te.inputs@.len() == te.shape.inputs@.len());
        }
        let existing = te.inputs[to_socket];
        let ghost o = *self;
        if let Some((old_from, old_socket)) = existing {
            proof {
                o.lemma_input_edge(to_node, to_socket as int);
            }
            let res = self.disconnect(old_from, old_socket, to_node, to_socket);
            proof {
                assert(res is Ok);
                self.lemma_edges_distinct();
                o.lemma_edges_distinct();
                // no remaining edge ends at the freed socket
                let ee = EdgeEntry { from_node: old_from, from_socket: old_socket, to_node, to_socket };
                let idx = o.edge_list().index_of(ee);
                assert(o.edge_list()[idx] == ee);
                assert forall|k: int| 0 <= k < self.edge_list().len() implies !(self.edge_list()[k].to_node == to_node
                    && self.edge_list()[k].to_socket == to_socket) by {
                    let k2 = if k < idx { k } else { k + 1 };
                    assert(self.edge_list()[k] == o.edge_list()[k2]);
                    assert(k2 != idx);
                    assert(!(o.edge_list()[k2].to_node == o.edge_list()[idx].to_node
                        && o.edge_list()[k2].to_socket == o.edge_list()[idx].to_socket));
                }
                assert(self.shape_at(to_node.0 as int) == o.shape_at(to_node.0 as int));
                assert(self.inputs_at(to_node.0 as int).len() == self.shape_at(to_node.0 as int).unwrap().inputs@.len());
                if self.input_of(to_node, to_socket as int) is Some {
                    assert(self.inputs_at(to_node.0 as int)[to_socket as int] is Some);
                    assert(GraphNodeId(to_node.0 as usize) == to_node);
                    assert(self.has_edge_into(to_node, to_socket as int));
                }
            }
        } else {
            proof {
                assert(o.input_of(to_node, to_socket as int) is None);
            }
        }
        self.attach(EdgeEntry { from_node, from_socket, to_node, to_socket });
        Ok(())
    }

    /// Connecting a fixed-type output into a `Generic` input whose group takes its type `t` from
    /// its other wires, upstream or downstream, succeeds exactly when the output's type is `t`;
    /// otherwise it is refused as a type mismatch and nothing changes.
    pub proof fn lemma_connect_checks_group_type(
        &self,
        new: &Self,
        from_node: GraphNodeId,
        from_socket: usize,
        to_node: GraphNodeId,
        to_socket: usize,
        r: Result<(), NodeError>,
        u: NodePortType,
        t: NodePortType,
    )
        requires
            self.wf(),
            self.connects(new, from_node, from_socket, to_node, to_socket, r),
            self.socket_dtype(from_node, from_socket as int, false) == Some(SocketDtype::Fixed(u)),
            self.socket_dtype(to_node, to_socket as int, true) == Some(SocketDtype::Generic),
            self.fed_from(to_node, t, Some((to_node, to_socket))) || self.drains_into(to_node, t, Some((to_node, to_socket))),
        ensures
            r is Ok <==> u == t,
            u != t ==> r is Err && r->Err_0 is SocketTypeMismatch && *new == *self,
    {
        let cut = Some((to_node, to_socket));
        if self.fed_from(to_node, t, cut) {
            self.lemma_generic_resolves_upstream(to_node, to_socket, true, t, cut);
        } else {
            self.lemma_generic_resolves_downstream(to_node, to_socket, true, t, cut);
        }
        assert(self.resolved_dtype_cut(from_node, from_socket, false, cut) == Some(u));
    }

    /// `new` and `r` are what removing `node_id` from `self` gives.
    pub open spec fn removes_node(&self, new: &Self, node_id: GraphNodeId, r: Result<(), NodeError>) -> bool {
        &&& (r is Ok <==> self.live(node_id))
        &&& (r is Err ==> *new == *self && r == Err::<(), NodeError>(NodeError::NodeNotFound(node_id)))
        &&& (r is Ok ==> {
            &&& !new.live(node_id)
            &&& new.slot_count() == self.slot_count()
            &&& forall|i: int|
                0 <= i < self.slot_count() && i != node_id.0 ==> #[trigger] new.shape_at(i)
                    == self.shape_at(i)
            &&& forall|i: int|
                0 <= i < self.slot_count() && i != node_id.0 && self.shape_at(i) is Some
                    ==> #[trigger] new.instance_at(i) == self.instance_at(i)
            &&& new.edge_list() == self.edge_list().filter(|e: EdgeEntry| !touches(e, node_id))
        })
    }

    /// Removes node `id` and every edge touching it. Its slot stays empty, so the ids of the other
    /// nodes do not change.
    pub fn remove_node(&mut self, node_id: GraphNodeId) -> (r: Result<(), NodeError>)
        requires
            old(self).wf(),
        ensures
            final(self).wf(),
            old(self).removes_node(final(self), node_id, r),
    {
        if !self.contains(node_id) {
            return Err(NodeError::NodeNotFound(node_id));
        }
        let ghost o = *self;
        let mut touching: Vec<EdgeEntry> = Vec::new();
        let mut k: usize = 0;
        while k < self.edges.len()
            invariant
                *self == o,
                k <= self.edges@.len(),
                touching@ == self.edges@.subrange(0, k as int).filter(|e: EdgeEntry| touches(e, node_id)),
            decreases self.edges@.len() - k,
        {
            let e = self.edges[k];
            proof {
                reveal_with_fuel(Seq::filter, 1);
                assert(self.edges@.subrange(0, k + 1).drop_last() =~= self.edges@.subrange(0, k as int));
            }
            if e.from_node == node_id || e.to_node == node_id {
                touching.push(e);
            }
            k = k + 1;
        }
        proof {
            assert(self.edges@.subrange(0, self.edges@.len() as int) =~= self.edges@);
            o.lemma_edges_distinct();
            o.edge_list().filter_lemma(|e: EdgeEntry| touches(e, node_id));
        }
        let ghost tl = touching@;
        proof {
            lemma_filter_members(o.edge_list(), |e: EdgeEntry| touches(e, node_id));
            let p0 = kept_edges(node_id, tl.subrange(0, tl.len() as int));
            assert(tl.subrange(0, tl.len() as int) =~= tl);
            assert forall|k: int| 0 <= k < o.edge_list().len() implies p0(o.edge_list()[k]) by {
                if touches(o.edge_list()[k], node_id) {
                    assert(o.edge_list().contains(o.edge_list()[k]));
                    assert(tl.contains(o.edge_list()[k]));
                }
            }
            lemma_filter_all(o.edge_list(), p0);
        }
        let mut j: usize = 0;
        while j < touching.len()
            invariant
                self.wf(),
                self.same_nodes(&o),
                o.wf(),
                o.live(node_id),
                touching@ == tl,
                j <= tl.len(),
                tl == o.edge_list().filter(|e: EdgeEntry| touches(e, node_id)),
                o.edge_list().no_duplicates(),
                self.edge_list() == o.edge_list().filter(kept_edges(node_id, tl.subrange(j as int, tl.len() as int))),
            decreases tl.len() - j,
        {
            let t = touching[j];
            let ghost before = self.edge_list();
            let ghost p = kept_edges(node_id, tl.subrange(j as int, tl.len() as int));
            proof {
                lemma_filter_members(o.edge_list(), |e: EdgeEntry| touches(e, node_id));
                assert(tl[j as int] == t);
                assert(tl.contains(t));
                assert(o.edge_list().contains(t));
                assert(tl.subrange(j as int, tl.len() as int)[0] == t);
                assert(p(t));
                lemma_filter_members(o.edge_list(), p);
                assert(before.contains(t));
            }
            let res = self.disconnect(t.from_node, t.from_socket, t.to_node, t.to_socket);
            proof {
                assert(res is Ok);
                let i = before.index_of(t);
                assert(before[i] == t);
                lemma_filter_remove(o.edge_list(), p, t, i);
                let q = kept_edges(node_id, tl.subrange(j + 1, tl.len() as int));
                // the filtered list no longer holds any touching edge listed from j on
                lemma_filter_members(o.edge_list(), |e: EdgeEntry| touches(e, node_id));
                assert(tl.no_duplicates());
                assert forall|k: int| 0 <= k < o.edge_list().len() implies excluding(p, t)(o.edge_list()[k])
                    == q(o.edge_list()[k]) by {
                    let e = o.edge_list()[k];
                    let r0 = tl.subrange(j as int, tl.len() as int);
                    let r1 = tl.subrange(j + 1, tl.len() as int);
                    if r1.contains(e) {
                        let m = choose|m: int| 0 <= m < r1.len() && r1[m] == e;
                        assert(r0[m + 1] == e);
                        assert(tl[j + 1 + m] == e);
                        assert(tl[j as int] == t);
                    }
                    if r0.contains(e) && e != t {
                        let m = choose|m: int| 0 <= m < r0.len() && r0[m] == e;
                        assert(m != 0);
                        assert(r1[m - 1] == e);
                    }
                }
                lemma_filter_congruent(o.edge_list(), excluding(p, t), q);
            }
            j = j + 1;
        }
        proof {
            let p = kept_edges(node_id, tl.subrange(j as int, tl.len() as int));
            assert forall|k: int| 0 <= k < o.edge_list().len() implies p(o.edge_list()[k]) == !touches(o.edge_list()[k], node_id) by {
                assert(tl.subrange(j as int, tl.len() as int) =~= Seq::<EdgeEntry>::empty());
            }
            lemma_filter_congruent(o.edge_list(), p, |e: EdgeEntry| !touches(e, node_id));
        }
        let ghost before = *self;
        self.nodes.set(node_id.0, None);
        proof {
            let ni = node_id.0 as int;
            assert(self.nodes@ == before.nodes@.update(ni, None));
            // no remaining edge touches the removed node
            let p = |e: EdgeEntry| !touches(e, node_id);
            o.edge_list().filter_lemma(p);
            assert forall|k: int| 0 <= k < self.edge_list().len() implies !touches(self.edge_list()[k], node_id) by {
                assert(p(o.edge_list().filter(p)[k]));
            }
            assert forall|i: int|
                0 <= i < self.slot_count() && self.shape_at(i) is Some implies #[trigger] self.inputs_at(i).len()
                    == self.shape_at(i).unwrap().inputs@.len() by {
                assert(self.nodes@[i] == before.nodes@[i]);
                assert(before.inputs_at(i).len() == before.shape_at(i).unwrap().inputs@.len());
            }
            assert forall|k: int| 0 <= k < self.edge_list().len() implies #[trigger] self.edge_valid(self.edge_list()[k]) by {
                let x = self.edge_list()[k];
                assert(before.edge_list()[k] == x);
                assert(before.edge_valid(x));
                assert(!touches(x, node_id));
                assert(self.nodes@[x.to_node.0 as int] == before.nodes@[x.to_node.0 as int]);
                assert(self.nodes@[x.from_node.0 as int] == before.nodes@[x.from_node.0 as int]);
            }
            assert forall|i: int, s: int|
                0 <= i < self.slot_count() && self.shape_at(i) is Some && 0 <= s < self.inputs_at(i).len()
                    && (#[trigger] self.inputs_at(i)[s]) is Some implies self.has_edge_into(GraphNodeId(i as usize), s) by {
                assert(self.nodes@[i] == before.nodes@[i]);
                assert(before.inputs_at(i)[s] is Some);
                assert(before.has_edge_into(GraphNodeId(i as usize), s));
            }
            assert forall|i: int|
                0 <= i < self.slot_count() && self.shape_at(i) is Some implies #[trigger] self.outputs_at(i).to_multiset()
                    == targets_from(self.edge_list(), GraphNodeId(i as usize)) by {
                assert(self.nodes@[i] == before.nodes@[i]);
                assert(before.outputs_at(i).to_multiset() == targets_from(before.edge_list(), GraphNodeId(i as usize)));
            }
            assert forall|i: int| 0 <= i < old(self).slot_count() && i != node_id.0 implies #[trigger] self.shape_at(i)
                == old(self).shape_at(i) by {
                assert(self.nodes@[i] == before.nodes@[i]);
                assert(before.shape_at(i) == o.shape_at(i));
            }
            assert forall|i: int|
                0 <= i < old(self).slot_count() && i != node_id.0 && old(self).shape_at(i) is Some
                    implies #[trigger] self.instance_at(i) == old(self).instance_at(i) by {
                assert(self.nodes@[i] == before.nodes@[i]);
                assert(before.shape_at(i) == o.shape_at(i));
                assert(before.instance_at(i) == o.instance_at(i));
            }
        }
        Ok(())
    }

    /// `new` and `r` are what refreshing the label, locality and kernel size of `id` in `self` gives.
    pub open spec fn updates_shape(&self, new: &Self, id: GraphNodeId, label: String, locality: NodeLocality, size: usize, r: Result<(), NodeError>) -> bool {
        &&& (r is Ok <==> self.live(id))
        &&& (r is Err ==> *new == *self && r == Err::<(), NodeError>(NodeError::NodeNotFound(id)))
        &&& (r is Ok ==> {
            &&& new.shape(id) == (NodeShape { label, locality, size, ..self.shape(id) })
            &&& new.slot_count() == self.slot_count()
            &&& new.edge_list() == self.edge_list()
            &&& forall|i: int| 0 <= i < self.slot_count() && i != id.0 ==> #[trigger] new.shape_at(i) == self.shape_at(i)
            &&& forall|i: int|
                0 <= i < self.slot_count() && self.shape_at(i) is Some ==> {
                    &&& #[trigger] new.instance_at(i) == self.instance_at(i)
                    &&& new.inputs_at(i) == self.inputs_at(i)
                    &&& new.outputs_at(i) == self.outputs_at(i)
                }
        })
    }

    /// Replaces what the graph keeps of node `id`'s label, locality and kernel size, after the node
    /// was edited. Its sockets never change.
    pub fn update_shape(&mut self, id: GraphNodeId, label: String, locality: NodeLocality, size: usize) -> (r: Result<(), NodeError>)
        requires
            old(self).wf(),
        ensures
            final(self).wf(),
            old(self).updates_shape(final(self), id, label, locality, size, r),
    {
        if !self.contains(id) {
            return Err(NodeError::NodeNotFound(id));
        }
        let ghost o = *self;
        let mut e = self.nodes[id.0].take().unwrap();
        e.shape.label = label;
        e.shape.locality = locality;
        e.shape.size = size;
        self.nodes.set(id.0, Some(e));
        proof {
            assert(self.nodes@ == o.nodes@.update(id.0 as int, Some(e)));
            assert forall|k: int| 0 <= k < self.edge_list().len() implies #[trigger] self.edge_valid(self.edge_list()[k]) by {
                assert(o.edge_valid(o.edge_list()[k]));
            }
            assert forall|i: int, s: int|
                0 <= i < self.slot_count() && self.shape_at(i) is Some && 0 <= s < self.inputs_at(i).len()
                    && (#[trigger] self.inputs_at(i)[s]) is Some implies self.has_edge_into(GraphNodeId(i as usize), s) by {
                assert(o.inputs_at(i)[s] is Some);
            }
            assert forall|i: int|
                0 <= i < self.slot_count() && self.shape_at(i) is Some implies #[trigger] self.outputs_at(i).to_multiset()
                    == targets_from(self.edge_list(), GraphNodeId(i as usize)) by {
                assert(o.outputs_at(i).to_multiset() == targets_from(o.edge_list(), GraphNodeId(i as usize)));
            }
            assert forall|i: int|
                0 <= i < self.slot_count() && self.shape_at(i) is Some implies #[trigger] self.inputs_at(i).len()
                    == self.shape_at(i).unwrap().inputs@.len() by {
                assert(o.inputs_at(i).len() == o.shape_at(i).unwrap().inputs@.len());
            }
        }
        Ok(())
    }

    // ------------------------------------------------------------------------------------------
    // Ancestors
    // ------------------------------------------------------------------------------------------

    /// Whether the search for `root`'s ancestors looks through the inputs of `x`: it does for
    /// `root` itself and for `Local` nodes, and stops at a `Global` ancestor.
    pub open spec fn expands(&self, x: GraphNodeId, root: GraphNodeId) -> bool {
        x == root || self.shape(x).locality == NodeLocality::Local
    }

    /// Some input socket of `x` is wired to an output of `f`.
    pub open spec fn feeds(&self, f: GraphNodeId, x: GraphNodeId) -> bool {
        exists|s: int|
            0 <= s < self.in_len(x) && (#[trigger] self.input_of(x, s)) is Some && self.input_of(x, s).unwrap().0 == f
    }

    /// `p` walks from `root` upstream, one input at a time, only through nodes that expand.
    pub open spec fn is_ancestor_path(&self, root: GraphNodeId, p: Seq<GraphNodeId>) -> bool {
        &&& p.len() > 0
        &&& p[0] == root
        &&& forall|k: int| 0 <= k < p.len() - 1 ==> #[trigger] self.expands(p[k], root) && self.feeds(p[k + 1], p[k])
    }

    /// `root` and every node that some path upstream from it reaches.
    pub open spec fn ancestors(&self, root: GraphNodeId) -> Set<GraphNodeId> {
        Set::new(|x: GraphNodeId| exists|p: Seq<GraphNodeId>| #[trigger] self.is_ancestor_path(root, p) && p.last() == x)
    }

    proof fn lemma_path_closed(&self, root: GraphNodeId, p: Seq<GraphNodeId>, found: Seq<GraphNodeId>, k: int)
        requires
            self.is_ancestor_path(root, p),
            0 <= k < p.len(),
            found.contains(root),
            forall|x: GraphNodeId, s: int|
                found.contains(x) && self.expands(x, root) && 0 <= s < self.in_len(x)
                    && (#[trigger] self.input_of(x, s)) is Some ==> found.contains(self.input_of(x, s).unwrap().0),
        ensures
            found.contains(p[k]),
        decreases k,
    {
        if k > 0 {
            self.lemma_path_closed(root, p, found, k - 1);
            assert(self.expands(p[k - 1], root) && self.feeds(p[k], p[k - 1]));
            let s = choose|s: int|
                0 <= s < self.in_len(p[k - 1]) && (#[trigger] self.input_of(p[k - 1], s)) is Some
                    && self.input_of(p[k - 1], s).unwrap().0 == p[k];
        }
    }

    /// `set` holds `root` and, for each of its members that expands, every node feeding it.
    pub open spec fn closed_upstream(&self, root: GraphNodeId, set: Set<GraphNodeId>) -> bool {
        &&& set.contains(root)
        &&& forall|x: GraphNodeId, f: GraphNodeId|
            set.contains(x) && self.expands(x, root) && #[trigger] self.feeds(f, x) ==> #[trigger] set.contains(f)
    }

    /// The ancestors of `root` are the least set closed upstream from it: they are closed, and
    /// every closed set holds them all.
    pub proof fn lemma_ancestors_least_closed(&self, root: GraphNodeId, set: Set<GraphNodeId>)
        requires
            self.closed_upstream(root, set),
        ensures
            self.closed_upstream(root, self.ancestors(root)),
            self.ancestors(root).subset_of(set),
    {
        let anc = self.ancestors(root);
        assert(self.is_ancestor_path(root, seq![root]));
        assert(seq![root].last() == root);
        assert(anc.contains(root));
        assert forall|x: GraphNodeId, f: GraphNodeId|
            anc.contains(x) && self.expands(x, root) && #[trigger] self.feeds(f, x) implies #[trigger] anc.contains(f) by {
            let p = choose|p: Seq<GraphNodeId>| #[trigger] self.is_ancestor_path(root, p) && p.last() == x;
            let p2 = p.push(f);
            assert forall|k: int| 0 <= k < p2.len() - 1 implies #[trigger] self.expands(p2[k], root) && self.feeds(
                p2[k + 1],
                p2[k],
            ) by {
                if k < p.len() - 1 {
                    assert(0 <= k < p.len() - 1);
                    assert(self.expands(p[k], root));
                    assert(self.feeds(p[k + 1], p[k]));
                    assert(p2[k] == p[k] && p2[k + 1] == p[k + 1]);
                } else {
                    assert(p2[k] == x && p2[k + 1] == f);
                }
            }
            assert(self.is_ancestor_path(root, p2));
            assert(p2.last() == f);
        }
        assert forall|x: GraphNodeId| anc.contains(x) implies set.contains(x) by {
            let p = choose|p: Seq<GraphNodeId>| #[trigger] self.is_ancestor_path(root, p) && p.last() == x;
            self.lemma_path_in_closed(root, p, set, p.len() - 1);
        }
    }

    proof fn lemma_path_in_closed(&self, root: GraphNodeId, p: Seq<GraphNodeId>, set: Set<GraphNodeId>, k: int)
        requires
            self.is_ancestor_path(root, p),
            self.closed_upstream(root, set),
            0 <= k < p.len(),
        ensures
            set.contains(p[k]),
        decreases k,
    {
        if k > 0 {
            self.lemma_path_in_closed(root, p, set, k - 1);
            assert(self.expands(p[k - 1], root) && self.feeds(p[k], p[k - 1]));
        }
    }

    /// Ancestors of `node_id`, including itself, each once; stops expanding through a `Global` ancestor.
    pub fn collect_ancestors(&self, node_id: GraphNodeId) -> (r: Result<Vec<GraphNodeId>, NodeError>)
        requires
            self.wf(),
        ensures
            r is Ok <==> self.live(node_id),
            r is Err ==> r == Err::<Vec<GraphNodeId>, NodeError>(NodeError::NodeNotFound(node_id)),
            r matches Ok(v) ==> {
                &&& v@.no_duplicates()
                &&& v@.to_set() == self.ancestors(node_id)
                &&& forall|k: int| 0 <= k < v@.len() ==> self.live(#[trigger] v@[k])
            },
    {
        if !self.contains(node_id) {
            return Err(NodeError::NodeNotFound(node_id));
        }
        let n = self.nodes.len();
        let mut seen: Vec<bool> = Vec::new();
        let mut k: usize = 0;
        while k < n
            invariant
                n == self.slot_count(),
                k <= n,
                seen@.len() == k,
                forall|j: int| 0 <= j < k ==> !seen@[j],
            decreases n - k,
        {
            seen.push(false);
            k = k + 1;
        }
        seen.set(node_id.0, true);
        let mut result: Vec<GraphNodeId> = Vec::new();
        result.push(node_id);
        let mut stack: Vec<GraphNodeId> = Vec::new();
        stack.push(node_id);
        proof {
            let p = seq![node_id];
            assert(self.is_ancestor_path(node_id, p));
            assert(p.last() == node_id);
        }
        proof {
            lemma_count_true_set(Seq::new(n as nat, |j: int| false), node_id.0 as int);
            assert(seen@ =~= Seq::new(n as nat, |j: int| false).update(node_id.0 as int, true));
            assert(count_true(Seq::new(n as nat, |j: int| false)) == 0) by {
                lemma_count_false(n as nat);
            }
            assert forall|j: int| 0 <= j < n implies (#[trigger] seen@[j] <==> result@.contains(GraphNodeId(j as usize))) by {
                if result@.contains(GraphNodeId(j as usize)) {
                    assert(result@[0] == node_id);
                }
                if j == node_id.0 {
                    assert(result@[0] == node_id);
                }
            }
        }
        while stack.len() > 0
            invariant
                self.wf(),
                self.live(node_id),
                n == self.slot_count(),
                seen@.len() == n,
                count_true(seen@) == result@.len(),
                result@.no_duplicates(),
                stack@.no_duplicates(),
                forall|j: int| 0 <= j < n ==> (#[trigger] seen@[j] <==> result@.contains(GraphNodeId(j as usize))),
                forall|x: GraphNodeId| #[trigger] result@.contains(x) ==> self.live(x),
                forall|x: GraphNodeId| #[trigger] stack@.contains(x) ==> result@.contains(x),
                forall|x: GraphNodeId| #[trigger] result@.contains(x) ==> self.ancestors(node_id).contains(x),
                result@.contains(node_id),
                forall|x: GraphNodeId, s: int|
                    result@.contains(x) && !stack@.contains(x) && self.expands(x, node_id) && 0 <= s < self.in_len(x)
                        && (#[trigger] self.input_of(x, s)) is Some ==> result@.contains(self.input_of(x, s).unwrap().0),
            decreases 2 * (n - result@.len()) + stack@.len(),
        {
            proof {
                lemma_count_true_bound(seen@);
            }
            let ghost old_measure = 2 * (n - result@.len()) + stack@.len();
            let ghost stack_before = stack@;
            let id = stack.pop().unwrap();
            let ghost stack_after_pop = stack@;
            proof {
                assert(stack_before == stack@.push(id));
                assert(stack_before.contains(id)) by {
                    assert(stack_before[stack_before.len() - 1] == id);
                }
                assert forall|x: GraphNodeId| #[trigger] stack@.contains(x) implies stack_before.contains(x) by {
                    let j = choose|j: int| 0 <= j < stack@.len() && stack@[j] == x;
                    assert(stack_before[j] == x);
                }
                assert forall|x: GraphNodeId| stack_before.contains(x) && x != id implies #[trigger] stack@.contains(x) by {
                    let j = choose|j: int| 0 <= j < stack_before.len() && stack_before[j] == x;
                    assert(j != stack_before.len() - 1);
                    assert(stack@[j] == x);
                }
                assert(!stack@.contains(id)) by {
                    if stack@.contains(id) {
                        let j = choose|j: int| 0 <= j < stack@.len() && stack@[j] == id;
                        assert(stack_before[j] == id);
                        assert(stack_before[stack_before.len() - 1] == id);
                    }
                }
            }
            let e = match self.entry(id) {
                Ok(e) => e,
                Err(_) => return Err(NodeError::NodeNotFound(id)),
            };
            if id != node_id {
                let global = match e.shape.locality {
                    NodeLocality::Global { .. } => true,
                    NodeLocality::Local => false,
                };
                if global {
                    proof {
                        assert forall|x: GraphNodeId, s: int|
                            result@.contains(x) && !stack@.contains(x) && self.expands(x, node_id) && 0 <= s < self.in_len(x)
                                && (#[trigger] self.input_of(x, s)) is Some implies result@.contains(self.input_of(x, s).unwrap().0) by {
                            if x == id {
                                assert(!self.expands(x, node_id));
                            }
                        }
                    }
                    continue;
                }
            }
            proof {
                assert(e.inputs@.len() == e.shape.inputs@.len());
            }
            let mut s: usize = 0;
            while s < e.inputs.len()
                invariant
                    self.wf(),
                    self.live(node_id),
                    self.live(id),
                    self.nodes@[id.0 as int] == Some(*e),
                    self.expands(id, node_id),
                    e.inputs@.len() == self.in_len(id),
                    s <= e.inputs@.len(),
                    n == self.slot_count(),
                    seen@.len() == n,
                    count_true(seen@) == result@.len(),
                    result@.no_duplicates(),
                    stack@.no_duplicates(),
                    !stack@.contains(id),
                    result@.contains(id),
                    forall|j: int| 0 <= j < n ==> (#[trigger] seen@[j] <==> result@.contains(GraphNodeId(j as usize))),
                    forall|x: GraphNodeId| #[trigger] result@.contains(x) ==> self.live(x),
                    forall|x: GraphNodeId| #[trigger] stack@.contains(x) ==> result@.contains(x),
                    forall|x: GraphNodeId| #[trigger] result@.contains(x) ==> self.ancestors(node_id).contains(x),
                    result@.contains(node_id),
                    forall|x: GraphNodeId, t: int|
                        result@.contains(x) && !stack@.contains(x) && x != id && self.expands(x, node_id) && 0 <= t < self.in_len(x)
                            && (#[trigger] self.input_of(x, t)) is Some ==> result@.contains(self.input_of(x, t).unwrap().0),
                    forall|t: int|
                        0 <= t < s && (#[trigger] self.input_of(id, t)) is Some ==> result@.contains(self.input_of(id, t).unwrap().0),
                    result@.len() <= n,
                    2 * (n - result@.len()) + stack@.len() + 1 <= old_measure,
                decreases e.inputs@.len() - s,
            {
                if let Some((f, _)) = e.inputs[s] {
                    proof {
                        assert(self.input_of(id, s as int) == Some((f, e.inputs@[s as int].unwrap().1)));
                        self.lemma_input_edge(id, s as int);
                        let ed = EdgeEntry { from_node: f, from_socket: e.inputs@[s as int].unwrap().1, to_node: id, to_socket: s };
                        let k = choose|k: int| 0 <= k < self.edge_list().len() && self.edge_list()[k] == ed;
                        assert(self.edge_valid(self.edge_list()[k]));
                        assert(self.nodes.len() == self.nodes@.len());
                    }
                    if !seen[f.0] {
                        proof {
                            lemma_count_true_set(seen@, f.0 as int);
                            lemma_count_true_bound(seen@.update(f.0 as int, true));
                            // f is an ancestor: extend the path that reaches id
                            assert(self.ancestors(node_id).contains(id));
                            let p = choose|p: Seq<GraphNodeId>| #[trigger] self.is_ancestor_path(node_id, p) && p.last() == id;
                            let p2 = p.push(f);
                            assert(self.feeds(f, id)) by {
                                assert(self.input_of(id, s as int) is Some);
                            }
                            assert forall|k: int| 0 <= k < p2.len() - 1 implies #[trigger] self.expands(p2[k], node_id) && self.feeds(p2[k + 1], p2[k]) by {
                                if k < p.len() - 1 {
                                    assert(p2[k] == p[k] && p2[k + 1] == p[k + 1]);
                                    assert(self.expands(p[k], node_id));
                                } else {
                                    assert(p2[k] == id);
                                    assert(p2[k + 1] == f);
                                }
                            }
                            assert(self.is_ancestor_path(node_id, p2));
                            assert(p2.last() == f);
                        }
                        let ghost r0 = result@;
                        let ghost s0 = stack@;
                        seen.set(f.0, true);
                        result.push(f);
                        stack.push(f);
                        proof {
                            assert(!r0.contains(f));
                            assert forall|a: int, b: int| 0 <= a < result@.len() && 0 <= b < result@.len() && a != b implies result@[a] != result@[b] by {
                                if a == r0.len() { assert(r0.contains(result@[b])); }
                                else if b == r0.len() { assert(r0.contains(result@[a])); }
                            }
                            assert(!s0.contains(f));
                            assert forall|a: int, b: int| 0 <= a < stack@.len() && 0 <= b < stack@.len() && a != b implies stack@[a] != stack@[b] by {
                                if a == s0.len() { assert(s0.contains(stack@[b])); }
                                else if b == s0.len() { assert(s0.contains(stack@[a])); }
                            }
                            assert forall|x: GraphNodeId| #[trigger] result@.contains(x) <==> (r0.contains(x) || x == f) by {
                                if result@.contains(x) && x != f {
                                    let j = choose|j: int| 0 <= j < result@.len() && result@[j] == x;
                                    assert(r0[j] == x);
                                }
                                if r0.contains(x) {
                                    let j = choose|j: int| 0 <= j < r0.len() && r0[j] == x;
                                    assert(result@[j] == x);
                                }
                                if x == f {
                                    assert(result@[r0.len() as int] == f);
                                }
                            }
                            assert forall|x: GraphNodeId| #[trigger] stack@.contains(x) <==> (s0.contains(x) || x == f) by {
                                if stack@.contains(x) && x != f {
                                    let j = choose|j: int| 0 <= j < stack@.len() && stack@[j] == x;
                                    assert(s0[j] == x);
                                }
                                if s0.contains(x) {
                                    let j = choose|j: int| 0 <= j < s0.len() && s0[j] == x;
                                    assert(stack@[j] == x);
                                }
                                if x == f {
                                    assert(stack@[s0.len() as int] == f);
                                }
                            }
                            assert forall|j: int| 0 <= j < n implies (#[trigger] seen@[j] <==> result@.contains(GraphNodeId(j as usize))) by {
                                if j == f.0 {
                                    assert(GraphNodeId(j as usize) == f);
                                }
                            }
                        }
                    }
                }
                s = s + 1;
            }
        }
        proof {
            assert forall|x: GraphNodeId| #[trigger] self.ancestors(node_id).contains(x) implies result@.contains(x) by {
                let p = choose|p: Seq<GraphNodeId>| #[trigger] self.is_ancestor_path(node_id, p) && p.last() == x;
                assert forall|k: int| 0 <= k < p.len() implies result@.contains(#[trigger] p[k]) by {
                    self.lemma_path_closed(node_id, p, result@, k);
                }
            }
            assert(result@.to_set() =~= self.ancestors(node_id));
            assert forall|k: int| 0 <= k < result@.len() implies self.live(#[trigger] result@[k]) by {
                assert(result@.contains(result@[k]));
            }
        }
        Ok(result)
    }

    /// Number of node slots, removed ones included; every id below it names a slot.
    pub fn slot_len(&self) -> (n: usize)
        ensures
            n == self.slot_count(),
    {
        self.nodes.len()
    }

    /// Ids of every node, in ascending order.
    pub fn node_ids(&self) -> (r: Vec<GraphNodeId>)
        ensures
            forall|x: GraphNodeId| r@.contains(x) <==> self.live(x),
            forall|a: int, b: int| 0 <= a < b < r@.len() ==> r@[a].0 < r@[b].0,
    {
        let mut r: Vec<GraphNodeId> = Vec::new();
        let mut i: usize = 0;
        while i < self.nodes.len()
            invariant
                i <= self.nodes@.len(),
                forall|x: GraphNodeId| r@.contains(x) <==> (x.0 < i && self.live(x)),
                forall|a: int, b: int| 0 <= a < b < r@.len() ==> r@[a].0 < r@[b].0,
                forall|a: int| 0 <= a < r@.len() ==> r@[a].0 < i,
            decreases self.nodes@.len() - i,
        {
            let live = self.nodes[i].is_some();
            if live {
                let ghost before = r@;
                r.push(GraphNodeId(i));
                proof {
                    assert forall|x: GraphNodeId| r@.contains(x) <==> (x.0 < i + 1 && self.live(x)) by {
                        if x == GraphNodeId(i) {
                            assert(r@[r@.len() - 1] == x);
                        }
                        if r@.contains(x) && x != GraphNodeId(i) {
                            let j = choose|j: int| 0 <= j < r@.len() && r@[j] == x;
                            assert(before[j] == x);
                        }
                        if before.contains(x) {
                            let j = choose|j: int| 0 <= j < before.len() && before[j] == x;
                            assert(r@[j] == x);
                        }
                    }
                }
            } else {
                proof {
                    assert forall|x: GraphNodeId| r@.contains(x) <==> (x.0 < i + 1 && self.live(x)) by {
                        if x.0 == i {
                            assert(!self.live(x));
                        }
                    }
                }
            }
            i = i + 1;
        }
        r
    }
}

} // verus!
